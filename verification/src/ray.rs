//! A parametric ray: origin, direction and a shutter time.

use vstd::prelude::*;

verus! {

use crate::SCALE;
use crate::fixed::fmul;
use crate::vec3::{Vec3, fmul_s, t_ok, T_LIMIT};

#[derive(Clone, Copy, PartialEq, Eq, Structural, Debug)]
pub struct Ray {
    pub orig: Vec3,
    pub dir: Vec3,
    pub tm: i64,
}

/// The point `orig + t * dir`, with each component rounded down.
pub open spec fn ray_at_spec(r: Ray, t: int) -> Vec3 {
    Vec3 {
        x: (r.orig.x + fmul_s(t, r.dir.x as int)) as i64,
        y: (r.orig.y + fmul_s(t, r.dir.y as int)) as i64,
        z: (r.orig.z + fmul_s(t, r.dir.z as int)) as i64,
    }
}

impl Ray {
    /// Origin and direction within scene bounds, shutter time in
    /// `[0, 1]`, the span of one shutter interval.
    pub open spec fn wf(self) -> bool {
        self.orig.wf() && self.dir.wf() && 0 <= self.tm <= SCALE
    }

    pub fn default() -> (r: Ray)
        ensures
            r == (Ray { orig: Vec3 { x: 0, y: 0, z: 0 }, dir: Vec3 { x: SCALE, y: SCALE, z: SCALE }, tm: 0 }),
            r.wf(),
    {
        Ray {
            orig: Vec3 { x: 0, y: 0, z: 0 },
            dir: Vec3 { x: SCALE, y: SCALE, z: SCALE },
            tm: 0,
        }
    }

    pub fn new(origin: &Vec3, direction: &Vec3, time: i64) -> (r: Ray)
        ensures
            r == (Ray { orig: *origin, dir: *direction, tm: time }),
    {
        Ray { orig: *origin, dir: *direction, tm: time }
    }

    pub fn origin(&self) -> (v: Vec3)
        ensures
            v == self.orig,
    {
        self.orig
    }

    pub fn direction(&self) -> (v: Vec3)
        ensures
            v == self.dir,
    {
        self.dir
    }

    pub fn time(&self) -> (t: i64)
        ensures
            t == self.tm,
    {
        self.tm
    }

    /// The point the ray reaches at parameter `t`.
    pub fn at(&self, t: i64) -> (p: Vec3)
        requires
            self.wf(),
            t_ok(t as int),
        ensures
            p == ray_at_spec(*self, t as int),
    {
        proof {
            lemma_at_bounds(*self, t as int);
        }
        Vec3 {
            x: self.orig.x + fmul(t, self.dir.x),
            y: self.orig.y + fmul(t, self.dir.y),
            z: self.orig.z + fmul(t, self.dir.z),
        }
    }
}

/// A bounded parameter times a bounded direction component stays well
/// inside the representable range, before and after descaling.
pub proof fn lemma_mul_div_bound(t: int, d: int)
    requires
        t_ok(t),
        -(crate::vec3::COORD_LIMIT as int) <= d <= crate::vec3::COORD_LIMIT as int,
    ensures
        i64::MIN * (SCALE as int) <= t * d <= i64::MAX * (SCALE as int),
        -1125899906842624 <= fmul_s(t, d) <= 1125899906842624,
{
    let l = crate::vec3::COORD_LIMIT as int;
    let tl = T_LIMIT as int;
    let s = SCALE as int;
    assert(-tl * l <= t * d <= tl * l) by (nonlinear_arith)
        requires
            -tl <= t <= tl,
            -l <= d <= l,
            tl > 0,
            l > 0,
    {}
    vstd::arithmetic::div_mod::lemma_div_is_ordered(-tl * l, t * d, s);
    vstd::arithmetic::div_mod::lemma_div_is_ordered(t * d, tl * l, s);
}

/// With a well-formed ray and an in-range parameter, evaluating the ray
/// cannot overflow.
proof fn lemma_at_bounds(r: Ray, t: int)
    requires
        r.wf(),
        t_ok(t),
    ensures
        i64::MIN * (SCALE as int) <= t * r.dir.x <= i64::MAX * (SCALE as int),
        i64::MIN * (SCALE as int) <= t * r.dir.y <= i64::MAX * (SCALE as int),
        i64::MIN * (SCALE as int) <= t * r.dir.z <= i64::MAX * (SCALE as int),
        i64::MIN <= r.orig.x + fmul_s(t, r.dir.x as int) <= i64::MAX,
        i64::MIN <= r.orig.y + fmul_s(t, r.dir.y as int) <= i64::MAX,
        i64::MIN <= r.orig.z + fmul_s(t, r.dir.z as int) <= i64::MAX,
{
    lemma_mul_div_bound(t, r.dir.x as int);
    lemma_mul_div_bound(t, r.dir.y as int);
    lemma_mul_div_bound(t, r.dir.z as int);
}

} // verus!
