//! A constant-density participating medium: the ray scatters where the
//! sampled free-flight distance falls inside the span it spends within
//! the boundary.

use vstd::prelude::*;

verus! {

use crate::SCALE;
use crate::aabb::AABB;
use crate::fixed::{div_f_i128, fmul};
use crate::hittable::{
    lemma_flight_bound, lemma_hit_t_in_range, medium_hit_spec, obj_box_spec, obj_wf, HitRecord,
    Object, T_STEP,
};
use crate::ray::Ray;
use crate::vec3::{t_ok, Vec3, COORD_LIMIT, T_LIMIT};

#[derive(Debug)]
pub struct ConstantMedium {
    pub boundary: Box<Object>,
    pub phase: u64,
    pub density: i64,
}

impl ConstantMedium {
    /// Wraps a boundary with a positive extinction coefficient and the
    /// phase-function material handle.
    pub fn new(boundary: Object, density: i64, phase: u64) -> (cm: ConstantMedium)
        ensures
            cm.boundary == boundary,
            cm.density == density,
            cm.phase == phase,
    {
        ConstantMedium { boundary: Box::new(boundary), phase, density }
    }

    /// Finds the entry and exit of the boundary, clamps them to the
    /// query window, and scatters at the sampled depth if it falls
    /// inside; otherwise the ray escapes.
    pub fn hit(&self, r: &Ray, t_min: i64, t_max: i64, sample: i64) -> (res: Option<HitRecord>)
        requires
            obj_wf(Object::ConstantMedium(*self)),
            r.wf(),
            t_ok(t_min as int),
            t_ok(t_max as int),
            sample >= 0,
        ensures
            res == medium_hit_spec(*self, *r, t_min as int, t_max as int, sample as int),
        decreases *self, 0int, 0int,
    {
        let h1 = match self.boundary.hit(r, -T_LIMIT, T_LIMIT, sample) {
            None => {
                return None;
            },
            Some(h) => h,
        };
        proof {
            lemma_hit_t_in_range(*self.boundary, *r, -(T_LIMIT as int), T_LIMIT as int, sample as int);
        }
        let start2 = if h1.t + T_STEP > T_LIMIT {
            T_LIMIT
        } else {
            h1.t + T_STEP
        };
        let h2 = match self.boundary.hit(r, start2, T_LIMIT, sample) {
            None => {
                return None;
            },
            Some(h) => h,
        };
        proof {
            lemma_hit_t_in_range(*self.boundary, *r, start2 as int, T_LIMIT as int, sample as int);
        }
        let t1a = if h1.t < t_min {
            t_min
        } else {
            h1.t
        };
        let t2 = if h2.t > t_max {
            t_max
        } else {
            h2.t
        };
        if t1a >= t2 {
            return None;
        }
        let t1 = if t1a < 0 {
            0
        } else {
            t1a
        };
        let len = r.dir.length();
        if len == 0 {
            return None;
        }
        proof {
            let l = COORD_LIMIT as int;
            assert(crate::vec3::dot_spec(r.dir, r.dir) >= 0) by (nonlinear_arith) {}
            crate::fixed::lemma_isqrt_exists(crate::vec3::dot_spec(r.dir, r.dir));
            assert(crate::vec3::dot_spec(r.dir, r.dir) <= 3 * l * l) by (nonlinear_arith)
                requires
                    -l <= r.dir.x <= l,
                    -l <= r.dir.y <= l,
                    -l <= r.dir.z <= l,
            {}
            assert(len <= 2 * l) by (nonlinear_arith)
                requires
                    (len as int) * (len as int) <= 3 * l * l,
                    len >= 0,
                    l > 0,
            {}
            assert(i64::MIN * (SCALE as int) <= (t2 - t1) * (len as int) <= i64::MAX * (SCALE as int))
                by (nonlinear_arith)
                requires
                    -3 * (T_LIMIT as int) <= t2 - t1 <= 3 * (T_LIMIT as int),
                    0 <= len <= 2 * (COORD_LIMIT as int),
            {}
        }
        let dist = fmul(t2 - t1, len);
        if sample > dist {
            return None;
        }
        proof {
            if t2 - t1 < 0 {
                assert((t2 - t1) * (len as int) <= -1) by (nonlinear_arith)
                    requires
                        t2 - t1 < 0,
                        len > 0,
                {}
                vstd::arithmetic::div_mod::lemma_div_is_ordered(
                    (t2 - t1) * (len as int),
                    -1,
                    SCALE as int,
                );
                assert(false);
            }
            lemma_flight_bound(sample as int, t2 as int - t1 as int, len as int);
        }
        let dt = div_f_i128((sample as i128) * (SCALE as i128), len as i128);
        let t = t1 + (dt as i64);
        let p = r.at(t);
        Some(
            HitRecord {
                p,
                normal: Vec3 { x: SCALE, y: 0, z: 0 },
                t,
                front_face: true,
                mat: self.phase,
                u: 0,
                v: 0,
            },
        )
    }

    /// The boundary's own box.
    pub fn bounding_box(&self, time0: i64, time1: i64) -> (res: Option<AABB>)
        requires
            obj_wf(Object::ConstantMedium(*self)),
        ensures
            res == obj_box_spec(Object::ConstantMedium(*self), time0 as int, time1 as int),
        decreases *self, 0int, 0int,
    {
        self.boundary.bounding_box(time0, time1)
    }
}

} // verus!
