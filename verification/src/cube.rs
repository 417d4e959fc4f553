//! An axis-aligned box assembled once from its six rectangle faces;
//! intersection is delegated to the face list.

use vstd::prelude::*;

verus! {

use crate::aabb::AABB;
use crate::aarec::{XYRect, XZRect, YZRect};
use crate::hittable::{list_hit_spec, list_wf, HitRecord, Object};
use crate::hittable_list::HittableList;
use crate::ray::Ray;
use crate::vec3::{t_ok, Vec3};

#[derive(Debug)]
pub struct Cube {
    pub cube_min: Vec3,
    pub cube_max: Vec3,
    pub sides: HittableList,
}

/// The literal corner-to-corner box, its corners normalised
/// componentwise.
pub open spec fn cube_box_spec(c: Cube) -> AABB {
    AABB {
        minimum: Vec3 {
            x: crate::hittable::imin(c.cube_min.x as int, c.cube_max.x as int) as i64,
            y: crate::hittable::imin(c.cube_min.y as int, c.cube_max.y as int) as i64,
            z: crate::hittable::imin(c.cube_min.z as int, c.cube_max.z as int) as i64,
        },
        maximum: Vec3 {
            x: crate::hittable::imax(c.cube_min.x as int, c.cube_max.x as int) as i64,
            y: crate::hittable::imax(c.cube_min.y as int, c.cube_max.y as int) as i64,
            z: crate::hittable::imax(c.cube_min.z as int, c.cube_max.z as int) as i64,
        },
    }
}

/// The six faces of the box spanned by `p0` and `p1`.
pub open spec fn cube_sides_spec(p0: Vec3, p1: Vec3, mat: u64) -> Seq<Object> {
    seq![
        Object::XYRect(XYRect { mat, x0: p0.x, x1: p1.x, y0: p0.y, y1: p1.y, k: p1.z }),
        Object::XYRect(XYRect { mat, x0: p0.x, x1: p1.x, y0: p0.y, y1: p1.y, k: p0.z }),
        Object::XZRect(XZRect { mat, x0: p0.x, x1: p1.x, z0: p0.z, z1: p1.z, k: p1.y }),
        Object::XZRect(XZRect { mat, x0: p0.x, x1: p1.x, z0: p0.z, z1: p1.z, k: p0.y }),
        Object::YZRect(YZRect { mat, y0: p0.y, y1: p1.y, z0: p0.z, z1: p1.z, k: p1.x }),
        Object::YZRect(YZRect { mat, y0: p0.y, y1: p1.y, z0: p0.z, z1: p1.z, k: p0.x }),
    ]
}

impl Cube {
    pub fn default() -> (c: Cube)
        ensures
            c.cube_min == (Vec3 { x: 0, y: 0, z: 0 }),
            c.cube_max == (Vec3 { x: 0, y: 0, z: 0 }),
            c.sides.objects@.len() == 0,
    {
        Cube {
            cube_min: Vec3 { x: 0, y: 0, z: 0 },
            cube_max: Vec3 { x: 0, y: 0, z: 0 },
            sides: HittableList::new(),
        }
    }

    /// Builds the six faces from two opposite corners.
    pub fn new(p0: &Vec3, p1: &Vec3, mat: u64) -> (c: Cube)
        ensures
            c.cube_min == *p0,
            c.cube_max == *p1,
            c.sides.objects@ == cube_sides_spec(*p0, *p1, mat),
    {
        let mut sides = HittableList::new();
        sides.add(Object::XYRect(XYRect::new(p0.x, p1.x, p0.y, p1.y, p1.z, mat)));
        sides.add(Object::XYRect(XYRect::new(p0.x, p1.x, p0.y, p1.y, p0.z, mat)));
        sides.add(Object::XZRect(XZRect::new(p0.x, p1.x, p0.z, p1.z, p1.y, mat)));
        sides.add(Object::XZRect(XZRect::new(p0.x, p1.x, p0.z, p1.z, p0.y, mat)));
        sides.add(Object::YZRect(YZRect::new(p0.y, p1.y, p0.z, p1.z, p1.x, mat)));
        sides.add(Object::YZRect(YZRect::new(p0.y, p1.y, p0.z, p1.z, p0.x, mat)));
        proof {
            assert(sides.objects@ =~= cube_sides_spec(*p0, *p1, mat));
        }
        Cube { cube_min: *p0, cube_max: *p1, sides }
    }

    /// Delegates to the face list.
    pub fn hit(&self, r: &Ray, t_min: i64, t_max: i64, sample: i64) -> (res: Option<HitRecord>)
        requires
            crate::hittable::obj_wf(Object::Cube(*self)),
            r.wf(),
            t_ok(t_min as int),
            t_ok(t_max as int),
            sample >= 0,
        ensures
            res == list_hit_spec(
                self.sides,
                *r,
                t_min as int,
                t_max as int,
                sample as int,
                self.sides.objects@.len() as int,
            ),
        decreases *self, 0int, 0int,
    {
        self.sides.hit(r, t_min, t_max, sample)
    }

    /// The literal corner-to-corner box.
    pub fn bounding_box(&self, time0: i64, time1: i64) -> (res: Option<AABB>)
        requires
            crate::hittable::obj_wf(Object::Cube(*self)),
        ensures
            res == Some(cube_box_spec(*self)),
    {
        Some(AABB::new(&self.cube_min, &self.cube_max))
    }
}

} // verus!
