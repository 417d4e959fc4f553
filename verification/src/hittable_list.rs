//! A flat union of entities with nearest-hit semantics: the scan
//! narrows the acceptance window to the closest hit found so far.

use vstd::prelude::*;

verus! {

broadcast use vstd::seq::axiom_seq_index_decreases, vstd::std_specs::vec::axiom_vec_index_decreases, vstd::std_specs::vec::axiom_vec_decreases_to_view;

use crate::aabb::AABB;
use crate::hittable::{
    list_box_spec, list_hit_spec, list_wf, obj_wf, lemma_hit_t_in_range, HitRecord, Object,
};
use crate::ray::Ray;
use crate::vec3::{t_ok, T_LIMIT};

#[derive(Debug)]
pub struct HittableList {
    pub objects: Vec<Object>,
}

impl HittableList {
    pub fn new() -> (l: HittableList)
        ensures
            l.objects@.len() == 0,
    {
        HittableList { objects: Vec::new() }
    }

    pub fn with_object(object: Object) -> (l: HittableList)
        ensures
            l.objects@.len() == 1,
            l.objects@[0] == object,
    {
        let mut objects: Vec<Object> = Vec::new();
        objects.push(object);
        HittableList { objects }
    }

    pub fn clear(&mut self)
        ensures
            final(self).objects@.len() == 0,
    {
        self.objects.clear();
    }

    pub fn add(&mut self, object: Object)
        ensures
            final(self).objects@ == old(self).objects@.push(object),
    {
        self.objects.push(object);
    }

    /// Scans every child, keeping the nearest hit: each child is
    /// queried with the window narrowed to the closest hit so far.
    pub fn hit(&self, r: &Ray, t_min: i64, t_max: i64, sample: i64) -> (res: Option<HitRecord>)
        requires
            list_wf(*self),
            r.wf(),
            t_ok(t_min as int),
            t_ok(t_max as int),
            sample >= 0,
        ensures
            res == list_hit_spec(
                *self,
                *r,
                t_min as int,
                t_max as int,
                sample as int,
                self.objects@.len() as int,
            ),
        decreases *self, 0int, 0int,
    {
        let mut res: Option<HitRecord> = None;
        let mut closest: i64 = t_max;
        let mut i: usize = 0;
        while i < self.objects.len()
            invariant
                list_wf(*self),
                r.wf(),
                t_ok(t_min as int),
                t_ok(t_max as int),
                t_ok(closest as int),
                sample >= 0,
                i <= self.objects@.len(),
                res == list_hit_spec(*self, *r, t_min as int, t_max as int, sample as int, i as int),
                closest as int == match res {
                    Some(h) => h.t as int,
                    None => t_max as int,
                },
            decreases self.objects@.len() - i,
        {
            proof {
                assert(obj_wf(self.objects@[i as int]));
            }
            let h = self.objects[i].hit(r, t_min, closest, sample);
            match h {
                Some(hh) => {
                    proof {
                        lemma_hit_t_in_range(
                            self.objects@[i as int],
                            *r,
                            t_min as int,
                            closest as int,
                            sample as int,
                        );
                    }
                    res = Some(hh);
                    closest = hh.t;
                },
                None => {},
            }
            i = i + 1;
        }
        res
    }

    /// The union of all children's boxes; an empty list, or any child
    /// without a box, has none.
    pub fn bounding_box(&self, time0: i64, time1: i64) -> (res: Option<AABB>)
        requires
            list_wf(*self),
        ensures
            res == list_box_spec(*self, time0 as int, time1 as int, self.objects@.len() as int),
        decreases *self, 0int, 0int,
    {
        if self.objects.len() == 0 {
            return None;
        }
        proof {
            assert(obj_wf(self.objects@[0]));
        }
        let mut out: AABB = match self.objects[0].bounding_box(time0, time1) {
            None => {
                proof {
                    crate::hittable::lemma_list_box_none(
                        *self,
                        time0 as int,
                        time1 as int,
                        0,
                        self.objects@.len() as int,
                    );
                }
                return None;
            },
            Some(b) => b,
        };
        proof {
            assert(list_box_spec(*self, time0 as int, time1 as int, 1) == Some(out));
        }
        let mut i: usize = 1;
        while i < self.objects.len()
            invariant
                list_wf(*self),
                1 <= i <= self.objects@.len(),
                list_box_spec(*self, time0 as int, time1 as int, i as int) == Some(out),
            decreases self.objects@.len() - i,
        {
            proof {
                assert(obj_wf(self.objects@[i as int]));
            }
            let b = match self.objects[i].bounding_box(time0, time1) {
                None => {
                    proof {
                        crate::hittable::lemma_list_box_none(
                            *self,
                            time0 as int,
                            time1 as int,
                            i as int,
                            self.objects@.len() as int,
                        );
                    }
                    return None;
                },
                Some(b) => b,
            };
            out = crate::aabb::surrounding_box(out, b);
            i = i + 1;
        }
        Some(out)
    }
}

} // verus!
