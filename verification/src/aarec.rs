//! Axis-aligned rectangles, one orientation per dropped axis.
//!
//! The plane crossing is the exact rational `SCALE * (k - origin) /
//! direction`, rounded down onto the grid; the in-plane coordinates and
//! the surface UV fractions are then fixed-point products and
//! quotients, each stated exactly.

use vstd::prelude::*;

verus! {

use crate::SCALE;
use crate::aabb::AABB;
use crate::fixed::{div_f, div_f_i128, fmul};
use crate::hittable::{face_record_spec, make_face_record, HitRecord};
use crate::ray::{ray_at_spec, Ray};
use crate::vec3::{coord_ok, t_ok, Vec3, COORD_LIMIT};

#[derive(Clone, Copy, PartialEq, Eq, Structural, Debug)]
pub struct XYRect {
    pub mat: u64,
    pub x0: i64,
    pub x1: i64,
    pub y0: i64,
    pub y1: i64,
    pub k: i64,
}

#[derive(Clone, Copy, PartialEq, Eq, Structural, Debug)]
pub struct XZRect {
    pub mat: u64,
    pub x0: i64,
    pub x1: i64,
    pub z0: i64,
    pub z1: i64,
    pub k: i64,
}

#[derive(Clone, Copy, PartialEq, Eq, Structural, Debug)]
pub struct YZRect {
    pub mat: u64,
    pub y0: i64,
    pub y1: i64,
    pub z0: i64,
    pub z1: i64,
    pub k: i64,
}

/// Thickness given to a rectangle's box along its flat axis, so the
/// box is never zero-volume (the hierarchy cannot partition one).
pub const FLAT_EPS: i64 = 7;

/// Grid parameter at which the ray crosses the plane `axis == k`,
/// given that axis' origin and direction components.
pub open spec fn plane_t(k: int, o: int, d: int) -> int {
    div_f((SCALE as int) * (k - o), d)
}

/// Fraction `(w - w0) / (w1 - w0)` on the grid; a degenerate extent
/// reports zero rather than dividing by zero.
pub open spec fn frac_spec(w: int, w0: int, w1: int) -> int {
    if w0 < w1 {
        div_f((w - w0) * (SCALE as int), w1 - w0)
    } else {
        0
    }
}

/// Generic rectangle intersection in plane coordinates: `(ka, oa, da)`
/// describe the dropped axis, `(u?, v?)` the two in-plane axes.
pub open spec fn rect_hit_t(k: int, o: int, d: int, tmin: int, tmax: int) -> Option<int> {
    if d == 0 {
        None
    } else {
        let t = plane_t(k, o, d);
        if tmin < t < tmax {
            Some(t)
        } else {
            None
        }
    }
}

impl XYRect {
    pub open spec fn wf(self) -> bool {
        coord_ok(self.x0 as int) && coord_ok(self.x1 as int) && coord_ok(self.y0 as int)
            && coord_ok(self.y1 as int) && coord_ok(self.k as int)
    }

    pub fn default() -> (r: XYRect)
        ensures
            r == (XYRect { mat: 0, x0: 0, x1: 0, y0: 0, y1: 0, k: 0 }),
    {
        XYRect { mat: 0, x0: 0, x1: 0, y0: 0, y1: 0, k: 0 }
    }

    pub fn new(x0: i64, x1: i64, y0: i64, y1: i64, k: i64, mat: u64) -> (r: XYRect)
        ensures
            r == (XYRect { mat, x0, x1, y0, y1, k }),
    {
        XYRect { mat, x0, x1, y0, y1, k }
    }

    pub open spec fn hit_spec(self, r: Ray, tmin: int, tmax: int) -> Option<HitRecord> {
        match rect_hit_t(self.k as int, r.orig.z as int, r.dir.z as int, tmin, tmax) {
            None => None,
            Some(t) => {
                let x = r.orig.x + crate::vec3::fmul_s(t, r.dir.x as int);
                let y = r.orig.y + crate::vec3::fmul_s(t, r.dir.y as int);
                if x < self.x0 || x > self.x1 || y < self.y0 || y > self.y1 {
                    None
                } else {
                    Some(
                        face_record_spec(
                            r,
                            ray_at_spec(r, t),
                            Vec3 { x: 0, y: 0, z: SCALE },
                            t,
                            self.mat,
                            frac_spec(x, self.x0 as int, self.x1 as int),
                            frac_spec(y, self.y0 as int, self.y1 as int),
                        ),
                    )
                }
            },
        }
    }

    pub fn hit(&self, r: &Ray, t_min: i64, t_max: i64) -> (res: Option<HitRecord>)
        requires
            self.wf(),
            r.wf(),
            t_ok(t_min as int),
            t_ok(t_max as int),
        ensures
            res == self.hit_spec(*r, t_min as int, t_max as int),
    {
        let t = match rect_plane_hit(self.k, r.orig.z, r.dir.z, t_min, t_max) {
            None => {
                return None;
            },
            Some(t) => t,
        };
        proof {
            assert(t_ok(t as int));
            crate::ray::lemma_mul_div_bound(t as int, r.dir.x as int);
            crate::ray::lemma_mul_div_bound(t as int, r.dir.y as int);
        }
        let x = r.orig.x + fmul(t, r.dir.x);
        let y = r.orig.y + fmul(t, r.dir.y);
        if x < self.x0 || x > self.x1 || y < self.y0 || y > self.y1 {
            return None;
        }
        let u = rect_frac(x, self.x0, self.x1);
        let v = rect_frac(y, self.y0, self.y1);
        let p = r.at(t);
        Some(make_face_record(r, &p, &Vec3 { x: 0, y: 0, z: SCALE }, t, self.mat, u, v))
    }

    /// The exact extents, with a tiny thickness along the flat axis.
    pub fn bounding_box(&self, time0: i64, time1: i64) -> (res: Option<AABB>)
        requires
            self.wf(),
        ensures
            res == Some(self.box_spec()),
    {
        Some(
            AABB {
                minimum: Vec3 { x: self.x0, y: self.y0, z: self.k - FLAT_EPS },
                maximum: Vec3 { x: self.x1, y: self.y1, z: self.k + FLAT_EPS },
            },
        )
    }

    pub open spec fn box_spec(self) -> AABB {
        AABB {
            minimum: Vec3 { x: self.x0, y: self.y0, z: (self.k - FLAT_EPS) as i64 },
            maximum: Vec3 { x: self.x1, y: self.y1, z: (self.k + FLAT_EPS) as i64 },
        }
    }
}

impl XZRect {
    pub open spec fn wf(self) -> bool {
        coord_ok(self.x0 as int) && coord_ok(self.x1 as int) && coord_ok(self.z0 as int)
            && coord_ok(self.z1 as int) && coord_ok(self.k as int)
    }

    pub fn default() -> (r: XZRect)
        ensures
            r == (XZRect { mat: 0, x0: 0, x1: 0, z0: 0, z1: 0, k: 0 }),
    {
        XZRect { mat: 0, x0: 0, x1: 0, z0: 0, z1: 0, k: 0 }
    }

    pub fn new(x0: i64, x1: i64, z0: i64, z1: i64, k: i64, mat: u64) -> (r: XZRect)
        ensures
            r == (XZRect { mat, x0, x1, z0, z1, k }),
    {
        XZRect { mat, x0, x1, z0, z1, k }
    }

    pub open spec fn hit_spec(self, r: Ray, tmin: int, tmax: int) -> Option<HitRecord> {
        match rect_hit_t(self.k as int, r.orig.y as int, r.dir.y as int, tmin, tmax) {
            None => None,
            Some(t) => {
                let x = r.orig.x + crate::vec3::fmul_s(t, r.dir.x as int);
                let z = r.orig.z + crate::vec3::fmul_s(t, r.dir.z as int);
                if x < self.x0 || x > self.x1 || z < self.z0 || z > self.z1 {
                    None
                } else {
                    Some(
                        face_record_spec(
                            r,
                            ray_at_spec(r, t),
                            Vec3 { x: 0, y: SCALE, z: 0 },
                            t,
                            self.mat,
                            frac_spec(x, self.x0 as int, self.x1 as int),
                            frac_spec(z, self.z0 as int, self.z1 as int),
                        ),
                    )
                }
            },
        }
    }

    pub fn hit(&self, r: &Ray, t_min: i64, t_max: i64) -> (res: Option<HitRecord>)
        requires
            self.wf(),
            r.wf(),
            t_ok(t_min as int),
            t_ok(t_max as int),
        ensures
            res == self.hit_spec(*r, t_min as int, t_max as int),
    {
        let t = match rect_plane_hit(self.k, r.orig.y, r.dir.y, t_min, t_max) {
            None => {
                return None;
            },
            Some(t) => t,
        };
        proof {
            assert(t_ok(t as int));
            crate::ray::lemma_mul_div_bound(t as int, r.dir.x as int);
            crate::ray::lemma_mul_div_bound(t as int, r.dir.z as int);
        }
        let x = r.orig.x + fmul(t, r.dir.x);
        let z = r.orig.z + fmul(t, r.dir.z);
        if x < self.x0 || x > self.x1 || z < self.z0 || z > self.z1 {
            return None;
        }
        let u = rect_frac(x, self.x0, self.x1);
        let v = rect_frac(z, self.z0, self.z1);
        let p = r.at(t);
        Some(make_face_record(r, &p, &Vec3 { x: 0, y: SCALE, z: 0 }, t, self.mat, u, v))
    }

    /// The exact extents, with a tiny thickness along the flat axis.
    pub fn bounding_box(&self, time0: i64, time1: i64) -> (res: Option<AABB>)
        requires
            self.wf(),
        ensures
            res == Some(self.box_spec()),
    {
        Some(
            AABB {
                minimum: Vec3 { x: self.x0, y: self.k - FLAT_EPS, z: self.z0 },
                maximum: Vec3 { x: self.x1, y: self.k + FLAT_EPS, z: self.z1 },
            },
        )
    }

    pub open spec fn box_spec(self) -> AABB {
        AABB {
            minimum: Vec3 { x: self.x0, y: (self.k - FLAT_EPS) as i64, z: self.z0 },
            maximum: Vec3 { x: self.x1, y: (self.k + FLAT_EPS) as i64, z: self.z1 },
        }
    }
}

impl YZRect {
    pub open spec fn wf(self) -> bool {
        coord_ok(self.y0 as int) && coord_ok(self.y1 as int) && coord_ok(self.z0 as int)
            && coord_ok(self.z1 as int) && coord_ok(self.k as int)
    }

    pub fn default() -> (r: YZRect)
        ensures
            r == (YZRect { mat: 0, y0: 0, y1: 0, z0: 0, z1: 0, k: 0 }),
    {
        YZRect { mat: 0, y0: 0, y1: 0, z0: 0, z1: 0, k: 0 }
    }

    pub fn new(y0: i64, y1: i64, z0: i64, z1: i64, k: i64, mat: u64) -> (r: YZRect)
        ensures
            r == (YZRect { mat, y0, y1, z0, z1, k }),
    {
        YZRect { mat, y0, y1, z0, z1, k }
    }

    pub open spec fn hit_spec(self, r: Ray, tmin: int, tmax: int) -> Option<HitRecord> {
        match rect_hit_t(self.k as int, r.orig.x as int, r.dir.x as int, tmin, tmax) {
            None => None,
            Some(t) => {
                let y = r.orig.y + crate::vec3::fmul_s(t, r.dir.y as int);
                let z = r.orig.z + crate::vec3::fmul_s(t, r.dir.z as int);
                if y < self.y0 || y > self.y1 || z < self.z0 || z > self.z1 {
                    None
                } else {
                    Some(
                        face_record_spec(
                            r,
                            ray_at_spec(r, t),
                            Vec3 { x: SCALE, y: 0, z: 0 },
                            t,
                            self.mat,
                            frac_spec(y, self.y0 as int, self.y1 as int),
                            frac_spec(z, self.z0 as int, self.z1 as int),
                        ),
                    )
                }
            },
        }
    }

    pub fn hit(&self, r: &Ray, t_min: i64, t_max: i64) -> (res: Option<HitRecord>)
        requires
            self.wf(),
            r.wf(),
            t_ok(t_min as int),
            t_ok(t_max as int),
        ensures
            res == self.hit_spec(*r, t_min as int, t_max as int),
    {
        let t = match rect_plane_hit(self.k, r.orig.x, r.dir.x, t_min, t_max) {
            None => {
                return None;
            },
            Some(t) => t,
        };
        proof {
            assert(t_ok(t as int));
            crate::ray::lemma_mul_div_bound(t as int, r.dir.y as int);
            crate::ray::lemma_mul_div_bound(t as int, r.dir.z as int);
        }
        let y = r.orig.y + fmul(t, r.dir.y);
        let z = r.orig.z + fmul(t, r.dir.z);
        if y < self.y0 || y > self.y1 || z < self.z0 || z > self.z1 {
            return None;
        }
        let u = rect_frac(y, self.y0, self.y1);
        let v = rect_frac(z, self.z0, self.z1);
        let p = r.at(t);
        Some(make_face_record(r, &p, &Vec3 { x: SCALE, y: 0, z: 0 }, t, self.mat, u, v))
    }

    /// The exact extents, with a tiny thickness along the flat axis.
    pub fn bounding_box(&self, time0: i64, time1: i64) -> (res: Option<AABB>)
        requires
            self.wf(),
        ensures
            res == Some(self.box_spec()),
    {
        Some(
            AABB {
                minimum: Vec3 { x: self.k - FLAT_EPS, y: self.y0, z: self.z0 },
                maximum: Vec3 { x: self.k + FLAT_EPS, y: self.y1, z: self.z1 },
            },
        )
    }

    pub open spec fn box_spec(self) -> AABB {
        AABB {
            minimum: Vec3 { x: (self.k - FLAT_EPS) as i64, y: self.y0, z: self.z0 },
            maximum: Vec3 { x: (self.k + FLAT_EPS) as i64, y: self.y1, z: self.z1 },
        }
    }
}

/// Solves the dropped-axis plane crossing and applies the range test.
fn rect_plane_hit(k: i64, o: i64, d: i64, t_min: i64, t_max: i64) -> (res: Option<i64>)
    requires
        coord_ok(k as int),
        coord_ok(o as int),
        coord_ok(d as int),
        t_ok(t_min as int),
        t_ok(t_max as int),
    ensures
        (res is Some) == (rect_hit_t(k as int, o as int, d as int, t_min as int, t_max as int)
            is Some),
        res is Some ==> res->0 as int == rect_hit_t(
            k as int,
            o as int,
            d as int,
            t_min as int,
            t_max as int,
        )->0,
{
    if d == 0 {
        return None;
    }
    let num = (SCALE as i128) * ((k as i128) - (o as i128));
    let t = div_f_i128(num, d as i128);
    if (t_min as i128) < t && t < (t_max as i128) {
        Some(t as i64)
    } else {
        None
    }
}

/// In-plane UV fraction on the grid.
fn rect_frac(w: i64, w0: i64, w1: i64) -> (res: i64)
    requires
        coord_ok(w0 as int),
        coord_ok(w1 as int),
        w0 <= w <= w1 || w1 <= w0,
    ensures
        res == frac_spec(w as int, w0 as int, w1 as int),
{
    if w0 < w1 {
        let num = ((w as i128) - (w0 as i128)) * (SCALE as i128);
        proof {
            assert(0 <= (w - w0) * (SCALE as int) <= 4 * (COORD_LIMIT as int) * (SCALE as int))
                by (nonlinear_arith)
                requires
                    0 <= w - w0 <= 2 * (COORD_LIMIT as int),
                    SCALE as int > 0,
                    COORD_LIMIT as int > 0,
            {}
            crate::vec3::lemma_div_f_bounds(
                (w - w0) * (SCALE as int),
                w1 - w0,
                0,
                4 * (COORD_LIMIT as int) * (SCALE as int),
            );
        }
        let q = div_f_i128(num, (w1 as i128) - (w0 as i128));
        q as i64
    } else {
        0
    }
}

} // verus!
