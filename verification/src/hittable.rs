//! The scene-entity tree: hit records, the closed set of entity
//! variants, and the exact recursive model of intersection that every
//! executable `hit` method is proved against.
//!
//! Constant-density media scatter at a stochastically sampled depth;
//! the sampled free-flight distance enters `hit` as the plain `sample`
//! argument, so intersection itself is a deterministic function.

use vstd::prelude::*;

verus! {

broadcast use vstd::seq::axiom_seq_index_decreases, vstd::std_specs::vec::axiom_vec_index_decreases, vstd::std_specs::vec::axiom_vec_decreases_to_view;

use crate::SCALE;
use crate::aabb::{aabb_hit_spec, AABB};
use crate::aarec::{XYRect, XZRect, YZRect};
use crate::bvh::BvhNode;
use crate::constant_medium::ConstantMedium;
use crate::cube::Cube;
use crate::fixed::{div_f, div_floor, isqrt_spec};
use crate::hittable_list::HittableList;
use crate::moving_sphere::{moving_sphere_hit_spec, MovingSphere};
use crate::ray::{ray_at_spec, Ray};
use crate::sphere::{sphere_hit_spec, Sphere};
use crate::vec3::{coord_ok, dot_spec, fmul_s, t_ok, Vec3, COORD_LIMIT, T_LIMIT};

/// Gap left after a boundary hit before probing for the exit hit.
pub const T_STEP: i64 = 7;

/// Bound on the coordinates of reported hit points.
pub const P_LIMIT: i64 = 4503599627370496;

#[derive(Clone, Copy, PartialEq, Eq, Structural, Debug)]
pub struct HitRecord {
    pub p: Vec3,
    pub normal: Vec3,
    pub t: i64,
    pub front_face: bool,
    pub mat: u64,
    pub u: i64,
    pub v: i64,
}

/// Clamp into the scene coordinate range.
pub open spec fn clamp_spec(v: int) -> int {
    if v < -(COORD_LIMIT as int) {
        -(COORD_LIMIT as int)
    } else if v > COORD_LIMIT as int {
        COORD_LIMIT as int
    } else {
        v
    }
}

/// Clamp into the hit-point range.
pub open spec fn clamp_p_spec(v: int) -> int {
    if v < -(P_LIMIT as int) {
        -(P_LIMIT as int)
    } else if v > P_LIMIT as int {
        P_LIMIT as int
    } else {
        v
    }
}

/// `clamp(p / q)` with a positive divisor.
pub fn clamp_c(p: i128, q: i64) -> (r: i64)
    requires
        q > 0,
        p > i128::MIN,
    ensures
        r as int == clamp_spec(div_f(p as int, q as int)),
{
    let d = div_floor(p, q as i128);
    if d < -(COORD_LIMIT as i128) {
        -COORD_LIMIT
    } else if d > COORD_LIMIT as i128 {
        COORD_LIMIT
    } else {
        d as i64
    }
}

/// Clamp an `i128` into the hit-point range.
pub fn clamp_p(v: i128) -> (r: i64)
    ensures
        r as int == clamp_p_spec(v as int),
{
    if v < -(P_LIMIT as i128) {
        -P_LIMIT
    } else if v > P_LIMIT as i128 {
        P_LIMIT
    } else {
        v as i64
    }
}

/// The record a surface reports: the normal is flipped to face the
/// incoming ray, and `front_face` remembers which side was struck.
pub open spec fn face_record_spec(
    r: Ray,
    p: Vec3,
    outward: Vec3,
    t: int,
    mat: u64,
    u: int,
    v: int,
) -> HitRecord {
    let front = dot_spec(r.dir, outward) < 0;
    HitRecord {
        p,
        normal: if front {
            outward
        } else {
            Vec3 { x: (-outward.x) as i64, y: (-outward.y) as i64, z: (-outward.z) as i64 }
        },
        t: t as i64,
        front_face: front,
        mat,
        u: u as i64,
        v: v as i64,
    }
}

/// Builds `face_record_spec` executably.
pub fn make_face_record(r: &Ray, p: &Vec3, outward: &Vec3, t: i64, mat: u64, u: i64, v: i64) -> (rec:
    HitRecord)
    requires
        r.wf(),
        -(COORD_LIMIT as int) <= outward.x <= COORD_LIMIT as int,
        -(COORD_LIMIT as int) <= outward.y <= COORD_LIMIT as int,
        -(COORD_LIMIT as int) <= outward.z <= COORD_LIMIT as int,
    ensures
        rec == face_record_spec(*r, *p, *outward, t as int, mat, u as int, v as int),
{
    let d = Vec3::dot(&r.dir, outward);
    let front = d < 0;
    let normal = if front {
        *outward
    } else {
        Vec3 { x: -outward.x, y: -outward.y, z: -outward.z }
    };
    HitRecord { p: *p, normal, t, front_face: front, mat, u, v }
}

impl HitRecord {
    pub fn new() -> (rec: HitRecord)
        ensures
            rec == (HitRecord {
                p: Vec3 { x: 0, y: 0, z: 0 },
                normal: Vec3 { x: SCALE, y: 0, z: 0 },
                t: SCALE,
                front_face: true,
                mat: 0,
                u: 0,
                v: 0,
            }),
    {
        HitRecord {
            p: Vec3 { x: 0, y: 0, z: 0 },
            normal: Vec3 { x: SCALE, y: 0, z: 0 },
            t: SCALE,
            front_face: true,
            mat: 0,
            u: 0,
            v: 0,
        }
    }

    /// Orients `outward_normal` against the ray and stores it.
    pub fn set_face_normal(&mut self, r: &Ray, outward_normal: &Vec3)
        requires
            r.wf(),
            -(COORD_LIMIT as int) <= outward_normal.x <= COORD_LIMIT as int,
            -(COORD_LIMIT as int) <= outward_normal.y <= COORD_LIMIT as int,
            -(COORD_LIMIT as int) <= outward_normal.z <= COORD_LIMIT as int,
        ensures
            *final(self) == (HitRecord {
                normal: face_record_spec(
                    *r,
                    old(self).p,
                    *outward_normal,
                    old(self).t as int,
                    old(self).mat,
                    old(self).u as int,
                    old(self).v as int,
                ).normal,
                front_face: dot_spec(r.dir, *outward_normal) < 0,
                ..*old(self)
            }),
    {
        let d = Vec3::dot(&r.dir, outward_normal);
        self.front_face = d < 0;
        self.normal = if self.front_face {
            *outward_normal
        } else {
            Vec3 { x: -outward_normal.x, y: -outward_normal.y, z: -outward_normal.z }
        };
    }
}

/// A wrapper that intersects its inner entity in a shifted frame.
#[derive(Debug)]
pub struct Translate {
    pub ptr: Box<Object>,
    pub offset: Vec3,
}

impl Translate {
    pub fn new(p: Object, displacement: &Vec3) -> (t: Translate)
        ensures
            t.ptr == p,
            t.offset == *displacement,
    {
        Translate { ptr: Box::new(p), offset: *displacement }
    }
}

/// A wrapper that intersects its inner entity in a frame rotated about
/// the vertical axis; the rotation arrives as its fixed-point sine and
/// cosine.
#[derive(Debug)]
pub struct RotateY {
    pub ptr: Box<Object>,
    pub sin_theta: i64,
    pub cos_theta: i64,
    pub has_box: bool,
    pub aabb_box: AABB,
}

/// The closed set of scene entities.
#[derive(Debug)]
pub enum Object {
    Sphere(Sphere),
    MovingSphere(MovingSphere),
    XYRect(XYRect),
    XZRect(XZRect),
    YZRect(YZRect),
    Cube(Cube),
    List(HittableList),
    Translate(Translate),
    RotateY(RotateY),
    ConstantMedium(ConstantMedium),
    Bvh(BvhNode),
}

/// Every entity in the tree is within scene bounds; media have
/// positive density, rotations carry a bounded sine and cosine, and
/// tree nodes carry ordered, bounded boxes.
pub open spec fn obj_wf(o: Object) -> bool
    decreases o, 1int, 0int,
{
    match o {
        Object::Sphere(s) => s.wf(),
        Object::MovingSphere(m) => m.wf(),
        Object::XYRect(x) => x.wf(),
        Object::XZRect(x) => x.wf(),
        Object::YZRect(x) => x.wf(),
        Object::Cube(c) => c.cube_min.wf() && c.cube_max.wf() && list_wf(c.sides),
        Object::List(l) => list_wf(l),
        Object::Translate(t) => t.offset.wf() && obj_wf(*t.ptr),
        Object::RotateY(ry) => -(SCALE as int) <= ry.sin_theta <= SCALE as int && -(SCALE as int)
            <= ry.cos_theta <= SCALE as int && obj_wf(*ry.ptr),
        Object::ConstantMedium(cm) => cm.density > 0 && obj_wf(*cm.boundary),
        Object::Bvh(b) => b.aabb_box.wf() && obj_wf(*b.left) && match b.right {
            Some(rt) => obj_wf(*rt),
            None => true,
        },
    }
}

pub open spec fn list_wf(l: HittableList) -> bool
    decreases l, 0int, 0int,
{
    forall|i: int| 0 <= i < l.objects@.len() ==> obj_wf(#[trigger] l.objects@[i])
}

/// Every entity of a plain sequence is well-formed.
pub open spec fn seq_wf(s: Seq<Object>) -> bool {
    forall|i: int| 0 <= i < s.len() ==> obj_wf(#[trigger] s[i])
}

/// The scene entities at the leaves of a hierarchy, in traversal
/// order; a non-node entity is its own single leaf.
pub open spec fn bvh_leaves(o: Object) -> Seq<Object>
    decreases o, 1int, 0int,
{
    match o {
        Object::Bvh(b) => bvh_leaves(*b.left) + (match b.right {
            Some(rt) => bvh_leaves(*rt),
            None => Seq::empty(),
        }),
        _ => seq![o],
    }
}

/// `b` contains `c` componentwise.
pub open spec fn covers(b: AABB, c: AABB) -> bool {
    b.minimum.x <= c.minimum.x && b.minimum.y <= c.minimum.y && b.minimum.z <= c.minimum.z
        && b.maximum.x >= c.maximum.x && b.maximum.y >= c.maximum.y && b.maximum.z >= c.maximum.z
}

/// Margin the hierarchy leaves around a leaf's exact bounding box.  It
/// exceeds the largest displacement grid rounding can give a hit point
/// for a scene-bounded direction, so pruning on a node box stays
/// conservative; it never appears in the entities' own `bounding_box`
/// contracts, which state the exact boxes.
pub const BOX_PAD: i64 = 2048;

/// A box grown by the guard margin on every side.
pub open spec fn pad_box_spec(b: AABB) -> AABB {
    AABB {
        minimum: Vec3 {
            x: (b.minimum.x - BOX_PAD) as i64,
            y: (b.minimum.y - BOX_PAD) as i64,
            z: (b.minimum.z - BOX_PAD) as i64,
        },
        maximum: Vec3 {
            x: (b.maximum.x + BOX_PAD) as i64,
            y: (b.maximum.y + BOX_PAD) as i64,
            z: (b.maximum.z + BOX_PAD) as i64,
        },
    }
}

/// The box a hierarchy node guards a child with: a subnode's own
/// cached box, or a leaf's exact box grown by the guard margin.
pub open spec fn guard_box(o: Object, t0: int, t1: int) -> Option<AABB>
    decreases o, 1int, 1int,
{
    match o {
        Object::Bvh(b) => Some(b.aabb_box),
        _ => match obj_box_spec(o, t0, t1) {
            Some(bx) => Some(pad_box_spec(bx)),
            None => None,
        },
    }
}

/// The node-box rule of the hierarchy: every node's cached box is
/// exactly the union of its children's guard boxes (the single child
/// of a one-entity span is the box itself), all the way down.
pub open spec fn bvh_covered(o: Object, t0: int, t1: int) -> bool
    decreases o, 2int, 0int,
{
    match o {
        Object::Bvh(b) => guard_box(*b.left, t0, t1) is Some && bvh_covered(*b.left, t0, t1)
            && (match b.right {
            Some(rt) => guard_box(*rt, t0, t1) is Some && b.aabb_box == crate::aabb::union_spec(
                guard_box(*b.left, t0, t1)->0,
                guard_box(*rt, t0, t1)->0,
            ) && bvh_covered(*rt, t0, t1),
            None => b.aabb_box == guard_box(*b.left, t0, t1)->0,
        }),
        _ => true,
    }
}

/// The exact intersection model.  `sample` is the free-flight distance
/// used by constant-density media on this query.
pub open spec fn obj_hit_spec(o: Object, r: Ray, tmin: int, tmax: int, sample: int) -> Option<
    HitRecord,
>
    decreases o, 1int, 0int,
{
    match o {
        Object::Sphere(s) => sphere_hit_spec(s, r, tmin, tmax),
        Object::MovingSphere(m) => moving_sphere_hit_spec(m, r, tmin, tmax),
        Object::XYRect(x) => x.hit_spec(r, tmin, tmax),
        Object::XZRect(x) => x.hit_spec(r, tmin, tmax),
        Object::YZRect(x) => x.hit_spec(r, tmin, tmax),
        Object::Cube(c) => list_hit_spec(c.sides, r, tmin, tmax, sample, c.sides.objects@.len() as int),
        Object::List(l) => list_hit_spec(l, r, tmin, tmax, sample, l.objects@.len() as int),
        Object::Translate(t) => translate_hit_spec(t, r, tmin, tmax, sample),
        Object::RotateY(ry) => rotate_hit_spec(ry, r, tmin, tmax, sample),
        Object::ConstantMedium(cm) => medium_hit_spec(cm, r, tmin, tmax, sample),
        Object::Bvh(b) => bvh_hit_spec(b, r, tmin, tmax, sample),
    }
}

/// Linear nearest-hit scan over the first `k` children: each child is
/// probed with the window narrowed to the closest hit so far, so a
/// later child can only replace the record with a strictly nearer one.
pub open spec fn list_hit_spec(
    l: HittableList,
    r: Ray,
    tmin: int,
    tmax: int,
    sample: int,
    k: int,
) -> Option<HitRecord>
    decreases l, 0int, k,
{
    if k <= 0 || k > l.objects@.len() {
        None
    } else {
        let prev = list_hit_spec(l, r, tmin, tmax, sample, k - 1);
        let cur_max = match prev {
            Some(h) => h.t as int,
            None => tmax,
        };
        match obj_hit_spec(l.objects@[k - 1], r, tmin, cur_max, sample) {
            Some(h) => Some(h),
            None => prev,
        }
    }
}

/// The shifted ray's origin, when it stays in scene bounds.
pub open spec fn shifted_origin(r: Ray, off: Vec3) -> Vec3 {
    Vec3 {
        x: (r.orig.x - off.x) as i64,
        y: (r.orig.y - off.y) as i64,
        z: (r.orig.z - off.z) as i64,
    }
}

/// Intersecting a translated entity: shift the ray into the local
/// frame, delegate, then shift the hit point back and re-orient the
/// normal against the local ray.
pub open spec fn translate_hit_spec(t: Translate, r: Ray, tmin: int, tmax: int, sample: int) -> Option<
    HitRecord,
>
    decreases t, 0int, 0int,
{
    let o2 = shifted_origin(r, t.offset);
    if !(coord_ok(o2.x as int) && coord_ok(o2.y as int) && coord_ok(o2.z as int)) {
        None
    } else {
        let moved = Ray { orig: o2, dir: r.dir, tm: r.tm };
        match obj_hit_spec(*t.ptr, moved, tmin, tmax, sample) {
            None => None,
            Some(h) => Some(
                HitRecord {
                    p: Vec3 {
                        x: clamp_p_spec(h.p.x + t.offset.x) as i64,
                        y: clamp_p_spec(h.p.y + t.offset.y) as i64,
                        z: clamp_p_spec(h.p.z + t.offset.z) as i64,
                    },
                    normal: face_record_spec(
                        moved,
                        h.p,
                        clamp_vec3(h.normal),
                        h.t as int,
                        h.mat,
                        h.u as int,
                        h.v as int,
                    ).normal,
                    front_face: dot_spec(moved.dir, clamp_vec3(h.normal)) < 0,
                    ..h
                },
            ),
        }
    }
}

/// Translation round trip: intersecting a translated entity gives
/// exactly the inner entity's hit on the shifted ray, with the same
/// parameter, UV and material, and a hit point that returns the inner
/// point once the offset is subtracted (whenever no representability
/// clamp fires, which a scene-sized point never triggers).
pub proof fn lemma_translate_round_trip(t: Translate, r: Ray, tmin: int, tmax: int, sample: int)
    requires
        coord_ok(r.orig.x - t.offset.x),
        coord_ok(r.orig.y - t.offset.y),
        coord_ok(r.orig.z - t.offset.z),
    ensures
        (obj_hit_spec(Object::Translate(t), r, tmin, tmax, sample) is Some) == (obj_hit_spec(
            *t.ptr,
            Ray { orig: shifted_origin(r, t.offset), dir: r.dir, tm: r.tm },
            tmin,
            tmax,
            sample,
        ) is Some),
        obj_hit_spec(Object::Translate(t), r, tmin, tmax, sample) matches Some(h) ==> {
            let h0 = obj_hit_spec(
                *t.ptr,
                Ray { orig: shifted_origin(r, t.offset), dir: r.dir, tm: r.tm },
                tmin,
                tmax,
                sample,
            )->0;
            &&& h.t == h0.t
            &&& h.u == h0.u
            &&& h.v == h0.v
            &&& h.mat == h0.mat
            &&& h.p.x as int == clamp_p_spec(h0.p.x + t.offset.x)
            &&& h.p.y as int == clamp_p_spec(h0.p.y + t.offset.y)
            &&& h.p.z as int == clamp_p_spec(h0.p.z + t.offset.z)
            &&& (-(P_LIMIT as int) <= h0.p.x + t.offset.x <= P_LIMIT as int ==> h.p.x
                - t.offset.x == h0.p.x)
            &&& (-(P_LIMIT as int) <= h0.p.y + t.offset.y <= P_LIMIT as int ==> h.p.y
                - t.offset.y == h0.p.y)
            &&& (-(P_LIMIT as int) <= h0.p.z + t.offset.z <= P_LIMIT as int ==> h.p.z
                - t.offset.z == h0.p.z)
        },
{
}

/// Rotation round trip, in exact (pre-rounding) arithmetic: rotating
/// the plane coordinates by the angle with cosine `cs` and sine `sn`
/// and then applying the inverse rotation reproduces the original
/// coordinates scaled by `cs^2 + sn^2` -- in particular, exactly
/// `SCALE^2` times the original for an exact unit rotation.
pub proof fn lemma_rotate_round_trip(cs: int, sn: int, x: int, z: int)
    ensures
        cs * (cs * x + sn * z) - sn * (-(sn * x) + cs * z) == (cs * cs + sn * sn) * x,
        sn * (cs * x + sn * z) + cs * (-(sn * x) + cs * z) == (cs * cs + sn * sn) * z,
        cs * cs + sn * sn == (SCALE as int) * (SCALE as int) ==> cs * (cs * x + sn * z) - sn * (-(
        sn * x) + cs * z) == (SCALE as int) * (SCALE as int) * x,
{
    assert(cs * (cs * x + sn * z) - sn * (-(sn * x) + cs * z) == (cs * cs + sn * sn) * x)
        by (nonlinear_arith)
    {}
    assert(sn * (cs * x + sn * z) + cs * (-(sn * x) + cs * z) == (cs * cs + sn * sn) * z)
        by (nonlinear_arith)
    {}
    if cs * cs + sn * sn == (SCALE as int) * (SCALE as int) {
        assert((cs * cs + sn * sn) * x == (SCALE as int) * (SCALE as int) * x) by (nonlinear_arith)
            requires
                cs * cs + sn * sn == (SCALE as int) * (SCALE as int),
        {}
    }
}

/// Componentwise clamp into the scene range; inner normals are already
/// inside it, so this is the identity in practice.
pub open spec fn clamp_vec3(v: Vec3) -> Vec3 {
    Vec3 {
        x: clamp_spec(v.x as int) as i64,
        y: clamp_spec(v.y as int) as i64,
        z: clamp_spec(v.z as int) as i64,
    }
}

/// Rotation of the (x, z) pair by the angle whose sine and cosine are
/// given, on the grid.
pub open spec fn rot_xz(cs: int, sn: int, x: int, z: int) -> (int, int) {
    (fmul_s(cs, x) + fmul_s(sn, z), -fmul_s(sn, x) + fmul_s(cs, z))
}

/// Intersecting a rotated entity: rotate the ray into the local frame
/// (inverse rotation), delegate, then rotate point and normal back.
pub open spec fn rotate_hit_spec(ry: RotateY, r: Ray, tmin: int, tmax: int, sample: int) -> Option<
    HitRecord,
>
    decreases ry, 0int, 0int,
{
    let (ox, oz) = rot_xz(ry.cos_theta as int, -(ry.sin_theta as int), r.orig.x as int, r.orig.z as int);
    let (dx, dz) = rot_xz(ry.cos_theta as int, -(ry.sin_theta as int), r.dir.x as int, r.dir.z as int);
    if !(coord_ok(ox) && coord_ok(oz) && coord_ok(dx) && coord_ok(dz)) {
        None
    } else {
        let rotated = Ray {
            orig: Vec3 { x: ox as i64, y: r.orig.y, z: oz as i64 },
            dir: Vec3 { x: dx as i64, y: r.dir.y, z: dz as i64 },
            tm: r.tm,
        };
        match obj_hit_spec(*ry.ptr, rotated, tmin, tmax, sample) {
            None => None,
            Some(h) => {
                let (px, pz) = rot_xz(ry.cos_theta as int, ry.sin_theta as int, h.p.x as int, h.p.z as int);
                let (nx, nz) = rot_xz(ry.cos_theta as int, ry.sin_theta as int, h.normal.x as int, h.normal.z as int);
                let world_p = Vec3 {
                    x: clamp_p_spec(px) as i64,
                    y: h.p.y,
                    z: clamp_p_spec(pz) as i64,
                };
                let world_n = Vec3 {
                    x: clamp_spec(nx) as i64,
                    y: clamp_spec(h.normal.y as int) as i64,
                    z: clamp_spec(nz) as i64,
                };
                Some(
                    HitRecord {
                        p: world_p,
                        normal: face_record_spec(rotated, world_p, world_n, h.t as int, h.mat, h.u as int, h.v as int).normal,
                        front_face: dot_spec(rotated.dir, world_n) < 0,
                        ..h
                    },
                )
            },
        }
    }
}

/// A constant-density medium scatters where the sampled free-flight
/// distance falls inside the span the ray spends within the boundary;
/// a longer sample escapes.  The reported normal and face are
/// placeholders, as the medium has no surface.
pub open spec fn medium_hit_spec(cm: ConstantMedium, r: Ray, tmin: int, tmax: int, sample: int) -> Option<
    HitRecord,
>
    decreases cm, 0int, 0int,
{
    match obj_hit_spec(*cm.boundary, r, -(T_LIMIT as int), T_LIMIT as int, sample) {
        None => None,
        Some(h1) => {
            let start2 = if h1.t + T_STEP > T_LIMIT {
                T_LIMIT as int
            } else {
                h1.t + T_STEP
            };
            match obj_hit_spec(*cm.boundary, r, start2, T_LIMIT as int, sample) {
                None => None,
                Some(h2) => {
                    let t1a = if (h1.t as int) < tmin {
                        tmin
                    } else {
                        h1.t as int
                    };
                    let t2 = if h2.t > tmax {
                        tmax
                    } else {
                        h2.t as int
                    };
                    if t1a >= t2 {
                        None
                    } else {
                        let t1 = if t1a < 0 {
                            0
                        } else {
                            t1a
                        };
                        let len = isqrt_spec(dot_spec(r.dir, r.dir));
                        if len == 0 {
                            None
                        } else {
                            let dist = fmul_s(t2 - t1, len);
                            if sample > dist {
                                None
                            } else {
                                let t = t1 + div_f(sample * (SCALE as int), len);
                                Some(
                                    HitRecord {
                                        p: ray_at_spec(r, t),
                                        normal: Vec3 { x: SCALE, y: 0, z: 0 },
                                        t: t as i64,
                                        front_face: true,
                                        mat: cm.phase,
                                        u: 0,
                                        v: 0,
                                    },
                                )
                            }
                        }
                    }
                },
            }
        },
    }
}

/// Tree traversal: prune on the node box, intersect the left subtree,
/// then give the right subtree only the window up to the left hit.
pub open spec fn bvh_hit_spec(b: BvhNode, r: Ray, tmin: int, tmax: int, sample: int) -> Option<
    HitRecord,
>
    decreases b, 0int, 0int,
{
    if !aabb_hit_spec(b.aabb_box, r, tmin, tmax) {
        None
    } else {
        let lh = obj_hit_spec(*b.left, r, tmin, tmax, sample);
        match b.right {
            None => lh,
            Some(rt) => {
                let new_max = match lh {
                    Some(h) => h.t as int,
                    None => tmax,
                };
                match obj_hit_spec(*rt, r, tmin, new_max, sample) {
                    Some(h) => Some(h),
                    None => lh,
                }
            },
        }
    }
}

/// A reported hit always lies inside the queried window.
#[verifier::rlimit(100)]
pub proof fn lemma_hit_t_in_range(o: Object, r: Ray, tmin: int, tmax: int, sample: int)
    requires
        sample >= 0,
        t_ok(tmin),
        t_ok(tmax),
        obj_hit_spec(o, r, tmin, tmax, sample) is Some,
    ensures
        tmin <= obj_hit_spec(o, r, tmin, tmax, sample)->0.t <= tmax,
    decreases o, 1int, 0int,
{
    match o {
        Object::Sphere(s) => {},
        Object::MovingSphere(m) => {},
        Object::XYRect(x) => {},
        Object::XZRect(x) => {},
        Object::YZRect(x) => {},
        Object::Cube(c) => {
            lemma_list_hit_t_in_range(c.sides, r, tmin, tmax, sample, c.sides.objects@.len() as int);
        },
        Object::List(l) => {
            lemma_list_hit_t_in_range(l, r, tmin, tmax, sample, l.objects@.len() as int);
        },
        Object::Translate(t) => {
            let o2 = shifted_origin(r, t.offset);
            if coord_ok(o2.x as int) && coord_ok(o2.y as int) && coord_ok(o2.z as int) {
                let moved = Ray { orig: o2, dir: r.dir, tm: r.tm };
                if obj_hit_spec(*t.ptr, moved, tmin, tmax, sample) is Some {
                    lemma_hit_t_in_range(*t.ptr, moved, tmin, tmax, sample);
                }
            }
        },
        Object::RotateY(ry) => {
            let (ox, oz) = rot_xz(ry.cos_theta as int, -(ry.sin_theta as int), r.orig.x as int, r.orig.z as int);
            let (dx, dz) = rot_xz(ry.cos_theta as int, -(ry.sin_theta as int), r.dir.x as int, r.dir.z as int);
            if coord_ok(ox) && coord_ok(oz) && coord_ok(dx) && coord_ok(dz) {
                let rotated = Ray {
                    orig: Vec3 { x: ox as i64, y: r.orig.y, z: oz as i64 },
                    dir: Vec3 { x: dx as i64, y: r.dir.y, z: dz as i64 },
                    tm: r.tm,
                };
                if obj_hit_spec(*ry.ptr, rotated, tmin, tmax, sample) is Some {
                    lemma_hit_t_in_range(*ry.ptr, rotated, tmin, tmax, sample);
                }
            }
        },
        Object::ConstantMedium(cm) => {
            lemma_medium_t_in_range(cm, r, tmin, tmax, sample);
        },
        Object::Bvh(b) => {
            if aabb_hit_spec(b.aabb_box, r, tmin, tmax) {
                let lh = obj_hit_spec(*b.left, r, tmin, tmax, sample);
                if lh is Some {
                    lemma_hit_t_in_range(*b.left, r, tmin, tmax, sample);
                }
                match b.right {
                    None => {},
                    Some(rt) => {
                        let new_max = match lh {
                            Some(h) => h.t as int,
                            None => tmax,
                        };
                        if obj_hit_spec(*rt, r, tmin, new_max, sample) is Some {
                            lemma_hit_t_in_range(*rt, r, tmin, new_max, sample);
                        }
                    },
                }
            }
        },
    }
}

pub proof fn lemma_list_hit_t_in_range(
    l: HittableList,
    r: Ray,
    tmin: int,
    tmax: int,
    sample: int,
    k: int,
)
    requires
        sample >= 0,
        t_ok(tmin),
        t_ok(tmax),
        list_hit_spec(l, r, tmin, tmax, sample, k) is Some,
    ensures
        tmin <= list_hit_spec(l, r, tmin, tmax, sample, k)->0.t <= tmax,
    decreases l, 0int, k,
{
    if k <= 0 || k > l.objects@.len() {
    } else {
        let prev = list_hit_spec(l, r, tmin, tmax, sample, k - 1);
        let cur_max = match prev {
            Some(h) => h.t as int,
            None => tmax,
        };
        if prev is Some {
            lemma_list_hit_t_in_range(l, r, tmin, tmax, sample, k - 1);
        }
        if obj_hit_spec(l.objects@[k - 1], r, tmin, cur_max, sample) is Some {
            lemma_hit_t_in_range(l.objects@[k - 1], r, tmin, cur_max, sample);
        }
    }
}

/// The medium's reported parameter stays inside the window: the flight
/// distance, descaled, never exceeds the span inside the boundary.
proof fn lemma_medium_t_in_range(cm: ConstantMedium, r: Ray, tmin: int, tmax: int, sample: int)
    requires
        sample >= 0,
        t_ok(tmin),
        t_ok(tmax),
        medium_hit_spec(cm, r, tmin, tmax, sample) is Some,
    ensures
        tmin <= medium_hit_spec(cm, r, tmin, tmax, sample)->0.t <= tmax,
    decreases cm, 0int, 1int,
{
    let h1 = obj_hit_spec(*cm.boundary, r, -(T_LIMIT as int), T_LIMIT as int, sample)->0;
    let start2 = if h1.t + T_STEP > T_LIMIT {
        T_LIMIT as int
    } else {
        h1.t + T_STEP
    };
    let h2 = obj_hit_spec(*cm.boundary, r, start2, T_LIMIT as int, sample)->0;
    let t1a = if (h1.t as int) < tmin {
        tmin
    } else {
        h1.t as int
    };
    let t2 = if h2.t > tmax {
        tmax
    } else {
        h2.t as int
    };
    let t1 = if t1a < 0 {
        0
    } else {
        t1a
    };
    let len = isqrt_spec(dot_spec(r.dir, r.dir));
    assert(dot_spec(r.dir, r.dir) >= 0) by (nonlinear_arith) {}
    crate::fixed::lemma_isqrt_exists(dot_spec(r.dir, r.dir));
    assert(len >= 0);
    assert(len != 0);
    let dist = fmul_s(t2 - t1, len);
    if t2 - t1 < 0 {
        assert((t2 - t1) * len <= -1) by (nonlinear_arith)
            requires
                t2 - t1 < 0,
                len > 0,
        {}
        vstd::arithmetic::div_mod::lemma_div_is_ordered((t2 - t1) * len, -1, SCALE as int);
        assert(false);
    }
    lemma_flight_bound(sample, t2 - t1, len);
    assert(t1 >= tmin);
    assert(t2 <= tmax);
}

/// If the sample is at most the descaled span-times-length product,
/// the rescaled flight parameter is at most the span.
pub proof fn lemma_flight_bound(sample: int, w: int, len: int)
    requires
        len > 0,
        w >= 0,
        0 <= sample <= w * len / (SCALE as int),
    ensures
        0 <= div_f(sample * (SCALE as int), len) <= w,
{
    let s = SCALE as int;
    vstd::arithmetic::div_mod::lemma_fundamental_div_mod(w * len, s);
    assert((w * len / s) * s <= w * len) by (nonlinear_arith)
        requires
            w * len == s * (w * len / s) + (w * len % s),
            0 <= w * len % s,
    {}
    assert(sample * s <= (w * len / s) * s) by (nonlinear_arith)
        requires
            sample <= w * len / s,
            s > 0,
    {}
    vstd::arithmetic::div_mod::lemma_div_is_ordered(sample * s, w * len, len);
    assert(w * len / len == w) by {
        vstd::arithmetic::div_mod::lemma_fundamental_div_mod_converse_div(w * len, len, w, 0);
    }
    assert(sample * s >= 0) by (nonlinear_arith)
        requires
            sample >= 0,
            s > 0,
    {}
    vstd::arithmetic::div_mod::lemma_div_pos_is_pos(sample * s, len);
}

pub open spec fn imin(a: int, b: int) -> int {
    if a <= b {
        a
    } else {
        b
    }
}

pub open spec fn imax(a: int, b: int) -> int {
    if a >= b {
        a
    } else {
        b
    }
}

/// The box an entity reports for a query time interval; `None` means
/// the entity cannot be bounded.
pub open spec fn obj_box_spec(o: Object, t0: int, t1: int) -> Option<AABB>
    decreases o, 1int, 0int,
{
    match o {
        Object::Sphere(s) => Some(crate::sphere::sphere_box_spec(s)),
        Object::MovingSphere(m) => Some(crate::moving_sphere::moving_sphere_box_spec(m, t0, t1)),
        Object::XYRect(x) => Some(x.box_spec()),
        Object::XZRect(x) => Some(x.box_spec()),
        Object::YZRect(x) => Some(x.box_spec()),
        Object::Cube(c) => Some(crate::cube::cube_box_spec(c)),
        Object::List(l) => list_box_spec(l, t0, t1, l.objects@.len() as int),
        Object::Translate(t) => match obj_box_spec(*t.ptr, t0, t1) {
            None => None,
            Some(b) => Some(shift_box_spec(b, t.offset)),
        },
        Object::RotateY(ry) => if ry.has_box {
            Some(ry.aabb_box)
        } else {
            None
        },
        Object::ConstantMedium(cm) => obj_box_spec(*cm.boundary, t0, t1),
        Object::Bvh(b) => Some(b.aabb_box),
    }
}

/// Union of the first `k` children's boxes; an empty list or an
/// unbounded child means no box.
pub open spec fn list_box_spec(l: HittableList, t0: int, t1: int, k: int) -> Option<AABB>
    decreases l, 0int, k,
{
    if k <= 0 || k > l.objects@.len() {
        None
    } else {
        match obj_box_spec(l.objects@[k - 1], t0, t1) {
            None => None,
            Some(bk) => if k == 1 {
                Some(bk)
            } else {
                match list_box_spec(l, t0, t1, k - 1) {
                    None => None,
                    Some(a) => Some(crate::aabb::union_spec(a, bk)),
                }
            },
        }
    }
}

/// One child without a box deprives the whole list of one.
pub proof fn lemma_list_box_none(l: HittableList, t0: int, t1: int, i: int, k: int)
    requires
        0 <= i < k <= l.objects@.len(),
        obj_box_spec(l.objects@[i], t0, t1) is None,
    ensures
        list_box_spec(l, t0, t1, k) is None,
    decreases k,
{
    if k == i + 1 {
    } else {
        lemma_list_box_none(l, t0, t1, i, k - 1);
    }
}

/// A box moved by an offset, its corners kept representable.
pub open spec fn shift_box_spec(b: AABB, off: Vec3) -> AABB {
    AABB {
        minimum: Vec3 {
            x: clamp_p_spec(b.minimum.x + off.x) as i64,
            y: clamp_p_spec(b.minimum.y + off.y) as i64,
            z: clamp_p_spec(b.minimum.z + off.z) as i64,
        },
        maximum: Vec3 {
            x: clamp_p_spec(b.maximum.x + off.x) as i64,
            y: clamp_p_spec(b.maximum.y + off.y) as i64,
            z: clamp_p_spec(b.maximum.z + off.z) as i64,
        },
    }
}

/// The conservative world box of a rotated entity, re-derived from the
/// four rotated (x, z) corner pairs of the inner box; a box with
/// unrepresentably large corners counts as no box.
pub open spec fn rotate_box_spec(bo: Option<AABB>, cs: int, sn: int) -> (bool, AABB) {
    match bo {
        None => (false, default_box_spec()),
        Some(b) => {
            if !(box_in_p_range(b)) {
                (false, default_box_spec())
            } else {
                let c1 = rot_xz(cs, sn, b.minimum.x as int, b.minimum.z as int);
                let c2 = rot_xz(cs, sn, b.minimum.x as int, b.maximum.z as int);
                let c3 = rot_xz(cs, sn, b.maximum.x as int, b.minimum.z as int);
                let c4 = rot_xz(cs, sn, b.maximum.x as int, b.maximum.z as int);
                (
                    true,
                    AABB {
                        minimum: Vec3 {
                            x: imin(imin(c1.0, c2.0), imin(c3.0, c4.0)) as i64,
                            y: imin(b.minimum.y as int, b.maximum.y as int) as i64,
                            z: imin(imin(c1.1, c2.1), imin(c3.1, c4.1)) as i64,
                        },
                        maximum: Vec3 {
                            x: imax(imax(c1.0, c2.0), imax(c3.0, c4.0)) as i64,
                            y: imax(b.minimum.y as int, b.maximum.y as int) as i64,
                            z: imax(imax(c1.1, c2.1), imax(c3.1, c4.1)) as i64,
                        },
                    },
                )
            }
        },
    }
}

pub open spec fn box_in_p_range(b: AABB) -> bool {
    -(P_LIMIT as int) <= b.minimum.x <= P_LIMIT as int && -(P_LIMIT as int) <= b.minimum.z
        <= P_LIMIT as int && -(P_LIMIT as int) <= b.maximum.x <= P_LIMIT as int && -(P_LIMIT as int)
        <= b.maximum.z <= P_LIMIT as int
}

pub open spec fn default_box_spec() -> AABB {
    AABB {
        minimum: Vec3 {
            x: -(SCALE as int) as i64,
            y: -(SCALE as int) as i64,
            z: -(SCALE as int) as i64,
        },
        maximum: Vec3 { x: SCALE, y: SCALE, z: SCALE },
    }
}

impl Translate {
    /// The inner box, moved by the offset.
    pub fn bounding_box(&self, time0: i64, time1: i64) -> (res: Option<AABB>)
        requires
            obj_wf(Object::Translate(*self)),
        ensures
            res == obj_box_spec(Object::Translate(*self), time0 as int, time1 as int),
        decreases *self, 0int, 0int,
    {
        let b = match self.ptr.bounding_box(time0, time1) {
            None => {
                return None;
            },
            Some(b) => b,
        };
        Some(
            AABB {
                minimum: Vec3 {
                    x: clamp_p((b.minimum.x as i128) + (self.offset.x as i128)),
                    y: clamp_p((b.minimum.y as i128) + (self.offset.y as i128)),
                    z: clamp_p((b.minimum.z as i128) + (self.offset.z as i128)),
                },
                maximum: Vec3 {
                    x: clamp_p((b.maximum.x as i128) + (self.offset.x as i128)),
                    y: clamp_p((b.maximum.y as i128) + (self.offset.y as i128)),
                    z: clamp_p((b.maximum.z as i128) + (self.offset.z as i128)),
                },
            },
        )
    }
}

impl RotateY {
    /// Wraps `p` in a rotation given by its fixed-point sine and
    /// cosine, precomputing the conservative world box.
    pub fn new(p: Object, sin_theta: i64, cos_theta: i64) -> (r: RotateY)
        requires
            obj_wf(p),
            -(SCALE as int) <= sin_theta <= SCALE as int,
            -(SCALE as int) <= cos_theta <= SCALE as int,
        ensures
            r.ptr == p,
            r.sin_theta == sin_theta,
            r.cos_theta == cos_theta,
            (r.has_box, r.aabb_box) == rotate_box_spec(
                obj_box_spec(p, 0, SCALE as int),
                cos_theta as int,
                sin_theta as int,
            ),
    {
        let inner = p.bounding_box(0, SCALE);
        let (has_box, aabb_box): (bool, AABB) = match inner {
            None => (false, AABB::default()),
            Some(b) => {
                if b.minimum.x < -P_LIMIT || b.minimum.x > P_LIMIT || b.minimum.z < -P_LIMIT
                    || b.minimum.z > P_LIMIT || b.maximum.x < -P_LIMIT || b.maximum.x > P_LIMIT
                    || b.maximum.z < -P_LIMIT || b.maximum.z > P_LIMIT {
                    (false, AABB::default())
                } else {
                    let c1 = rot_pair(cos_theta, sin_theta, b.minimum.x, b.minimum.z);
                    let c2 = rot_pair(cos_theta, sin_theta, b.minimum.x, b.maximum.z);
                    let c3 = rot_pair(cos_theta, sin_theta, b.maximum.x, b.minimum.z);
                    let c4 = rot_pair(cos_theta, sin_theta, b.maximum.x, b.maximum.z);
                    let min_x = min2(min2(c1.0, c2.0), min2(c3.0, c4.0));
                    let max_x = max2(max2(c1.0, c2.0), max2(c3.0, c4.0));
                    let min_z = min2(min2(c1.1, c2.1), min2(c3.1, c4.1));
                    let max_z = max2(max2(c1.1, c2.1), max2(c3.1, c4.1));
                    let min_y = min2(b.minimum.y, b.maximum.y);
                    let max_y = max2(b.minimum.y, b.maximum.y);
                    (
                        true,
                        AABB {
                            minimum: Vec3 { x: min_x, y: min_y, z: min_z },
                            maximum: Vec3 { x: max_x, y: max_y, z: max_z },
                        },
                    )
                }
            },
        };
        RotateY { ptr: Box::new(p), sin_theta, cos_theta, has_box, aabb_box }
    }

    /// The precomputed conservative box, if the inner entity had one.
    pub fn bounding_box(&self, time0: i64, time1: i64) -> (res: Option<AABB>)
        ensures
            res == obj_box_spec(Object::RotateY(*self), time0 as int, time1 as int),
    {
        if self.has_box {
            Some(self.aabb_box)
        } else {
            None
        }
    }
}

fn min2(a: i64, b: i64) -> (r: i64)
    ensures
        r as int == imin(a as int, b as int),
{
    if a <= b {
        a
    } else {
        b
    }
}

fn max2(a: i64, b: i64) -> (r: i64)
    ensures
        r as int == imax(a as int, b as int),
{
    if a >= b {
        a
    } else {
        b
    }
}

impl Object {
    /// Dispatches the bounding-box query to the entity's own routine.
    pub fn bounding_box(&self, time0: i64, time1: i64) -> (res: Option<AABB>)
        requires
            obj_wf(*self),
        ensures
            res == obj_box_spec(*self, time0 as int, time1 as int),
        decreases *self, 1int, 0int,
    {
        match self {
            Object::Sphere(s) => s.bounding_box(time0, time1),
            Object::MovingSphere(m) => m.bounding_box(time0, time1),
            Object::XYRect(x) => x.bounding_box(time0, time1),
            Object::XZRect(x) => x.bounding_box(time0, time1),
            Object::YZRect(x) => x.bounding_box(time0, time1),
            Object::Cube(c) => c.bounding_box(time0, time1),
            Object::List(l) => l.bounding_box(time0, time1),
            Object::Translate(t) => t.bounding_box(time0, time1),
            Object::RotateY(ry) => ry.bounding_box(time0, time1),
            Object::ConstantMedium(cm) => cm.bounding_box(time0, time1),
            Object::Bvh(b) => b.bounding_box(time0, time1),
        }
    }

    /// Dispatches intersection to the entity's own routine.
    pub fn hit(&self, r: &Ray, t_min: i64, t_max: i64, sample: i64) -> (res: Option<HitRecord>)
        requires
            obj_wf(*self),
            r.wf(),
            t_ok(t_min as int),
            t_ok(t_max as int),
            sample >= 0,
        ensures
            res == obj_hit_spec(*self, *r, t_min as int, t_max as int, sample as int),
        decreases *self, 1int, 0int,
    {
        match self {
            Object::Sphere(s) => s.hit(r, t_min, t_max),
            Object::MovingSphere(m) => m.hit(r, t_min, t_max),
            Object::XYRect(x) => x.hit(r, t_min, t_max),
            Object::XZRect(x) => x.hit(r, t_min, t_max),
            Object::YZRect(x) => x.hit(r, t_min, t_max),
            Object::Cube(c) => c.hit(r, t_min, t_max, sample),
            Object::List(l) => l.hit(r, t_min, t_max, sample),
            Object::Translate(t) => t.hit(r, t_min, t_max, sample),
            Object::RotateY(ry) => ry.hit(r, t_min, t_max, sample),
            Object::ConstantMedium(cm) => cm.hit(r, t_min, t_max, sample),
            Object::Bvh(b) => b.hit(r, t_min, t_max, sample),
        }
    }
}

impl Translate {
    /// Shift the ray, delegate, shift the hit back.
    pub fn hit(&self, r: &Ray, t_min: i64, t_max: i64, sample: i64) -> (res: Option<HitRecord>)
        requires
            obj_wf(Object::Translate(*self)),
            r.wf(),
            t_ok(t_min as int),
            t_ok(t_max as int),
            sample >= 0,
        ensures
            res == translate_hit_spec(*self, *r, t_min as int, t_max as int, sample as int),
        decreases *self, 0int, 0int,
    {
        let ox = r.orig.x - self.offset.x;
        let oy = r.orig.y - self.offset.y;
        let oz = r.orig.z - self.offset.z;
        if ox < -COORD_LIMIT || ox > COORD_LIMIT || oy < -COORD_LIMIT || oy > COORD_LIMIT || oz
            < -COORD_LIMIT || oz > COORD_LIMIT {
            return None;
        }
        let moved = Ray { orig: Vec3 { x: ox, y: oy, z: oz }, dir: r.dir, tm: r.tm };
        let h = match self.ptr.hit(&moved, t_min, t_max, sample) {
            None => {
                return None;
            },
            Some(h) => h,
        };
        let n = Vec3 {
            x: clamp_c(h.normal.x as i128, 1),
            y: clamp_c(h.normal.y as i128, 1),
            z: clamp_c(h.normal.z as i128, 1),
        };
        let p = Vec3 {
            x: clamp_p((h.p.x as i128) + (self.offset.x as i128)),
            y: clamp_p((h.p.y as i128) + (self.offset.y as i128)),
            z: clamp_p((h.p.z as i128) + (self.offset.z as i128)),
        };
        let d = Vec3::dot(&moved.dir, &n);
        let front = d < 0;
        let normal = if front {
            n
        } else {
            Vec3 { x: -n.x, y: -n.y, z: -n.z }
        };
        Some(HitRecord { p, normal, front_face: front, ..h })
    }
}

impl RotateY {
    /// Rotate the ray into the local frame, delegate, rotate back.
    pub fn hit(&self, r: &Ray, t_min: i64, t_max: i64, sample: i64) -> (res: Option<HitRecord>)
        requires
            obj_wf(Object::RotateY(*self)),
            r.wf(),
            t_ok(t_min as int),
            t_ok(t_max as int),
            sample >= 0,
        ensures
            res == rotate_hit_spec(*self, *r, t_min as int, t_max as int, sample as int),
        decreases *self, 0int, 0int,
    {
        let cs = self.cos_theta;
        let sn = self.sin_theta;
        proof {
            lemma_rot_one(cs as int, r.orig.x as int);
            lemma_rot_one(cs as int, r.orig.z as int);
            lemma_rot_one(-(sn as int), r.orig.x as int);
            lemma_rot_one(-(sn as int), r.orig.z as int);
            lemma_rot_one(cs as int, r.dir.x as int);
            lemma_rot_one(cs as int, r.dir.z as int);
            lemma_rot_one(-(sn as int), r.dir.x as int);
            lemma_rot_one(-(sn as int), r.dir.z as int);
        }
        let ox128 = (crate::fixed::fmul(cs, r.orig.x) as i128) + (crate::fixed::fmul(-sn, r.orig.z) as i128);
        let oz128 = -(crate::fixed::fmul(-sn, r.orig.x) as i128) + (crate::fixed::fmul(cs, r.orig.z) as i128);
        let dx128 = (crate::fixed::fmul(cs, r.dir.x) as i128) + (crate::fixed::fmul(-sn, r.dir.z) as i128);
        let dz128 = -(crate::fixed::fmul(-sn, r.dir.x) as i128) + (crate::fixed::fmul(cs, r.dir.z) as i128);
        if ox128 < -(COORD_LIMIT as i128) || ox128 > COORD_LIMIT as i128 || oz128
            < -(COORD_LIMIT as i128) || oz128 > COORD_LIMIT as i128 || dx128
            < -(COORD_LIMIT as i128) || dx128 > COORD_LIMIT as i128 || dz128
            < -(COORD_LIMIT as i128) || dz128 > COORD_LIMIT as i128 {
            return None;
        }
        let rotated = Ray {
            orig: Vec3 { x: ox128 as i64, y: r.orig.y, z: oz128 as i64 },
            dir: Vec3 { x: dx128 as i64, y: r.dir.y, z: dz128 as i64 },
            tm: r.tm,
        };
        let h = match self.ptr.hit(&rotated, t_min, t_max, sample) {
            None => {
                return None;
            },
            Some(h) => h,
        };
        let (px, pz) = rot_pair_back(cs, sn, h.p.x, h.p.z);
        let (nx, nz) = rot_pair_back(cs, sn, h.normal.x, h.normal.z);
        let world_p = Vec3 { x: px, y: h.p.y, z: pz };
        let world_n = Vec3 {
            x: clamp_c(nx as i128, 1),
            y: clamp_c(h.normal.y as i128, 1),
            z: clamp_c(nz as i128, 1),
        };
        let d = Vec3::dot(&rotated.dir, &world_n);
        let front = d < 0;
        let normal = if front {
            world_n
        } else {
            Vec3 { x: -world_n.x, y: -world_n.y, z: -world_n.z }
        };
        Some(HitRecord { p: world_p, normal, front_face: front, ..h })
    }
}

/// `(cs * x + sn * z, -sn * x + cs * z)` on the grid, for in-range
/// rotation coefficients and any representable coordinates.
fn rot_pair(cs: i64, sn: i64, x: i64, z: i64) -> (res: (i64, i64))
    requires
        -(SCALE as int) <= cs <= SCALE as int,
        -(SCALE as int) <= sn <= SCALE as int,
        -(P_LIMIT as int) <= x <= P_LIMIT as int,
        -(P_LIMIT as int) <= z <= P_LIMIT as int,
    ensures
        (res.0 as int, res.1 as int) == rot_xz(cs as int, sn as int, x as int, z as int),
{
    proof {
        lemma_rot_bounds(cs as int, sn as int, x as int, z as int);
    }
    let a = crate::fixed::fmul(cs, x);
    let b = crate::fixed::fmul(sn, z);
    let c = crate::fixed::fmul(sn, x);
    let d = crate::fixed::fmul(cs, z);
    (a + b, -c + d)
}

/// The same rotation for arbitrary representable inputs, with the
/// hit-point clamp applied to each output.
fn rot_pair_back(cs: i64, sn: i64, x: i64, z: i64) -> (res: (i64, i64))
    requires
        -(SCALE as int) <= cs <= SCALE as int,
        -(SCALE as int) <= sn <= SCALE as int,
    ensures
        res.0 as int == clamp_p_spec(rot_xz(cs as int, sn as int, x as int, z as int).0),
        res.1 as int == clamp_p_spec(rot_xz(cs as int, sn as int, x as int, z as int).1),
{
    proof {
        lemma_scaled_prod(cs as int, x as int);
        lemma_scaled_prod(cs as int, z as int);
        lemma_scaled_prod(sn as int, x as int);
        lemma_scaled_prod(sn as int, z as int);
    }
    let a = div_floor((cs as i128) * (x as i128), SCALE as i128);
    let b = div_floor((sn as i128) * (z as i128), SCALE as i128);
    let c = div_floor((sn as i128) * (x as i128), SCALE as i128);
    let d = div_floor((cs as i128) * (z as i128), SCALE as i128);
    let rx = clamp_p(a + b);
    let rz = clamp_p(-c + d);
    (rx, rz)
}

/// The product of a rotation coefficient with any `i64` coordinate
/// fits in `i128`.
proof fn lemma_scaled_prod(c: int, x: int)
    requires
        -(SCALE as int) <= c <= SCALE as int,
        i64::MIN <= x <= i64::MAX,
    ensures
        -0x10000000000000000000000 <= c * x <= 0x10000000000000000000000,
{
    assert(-0x10000000000000000000000 <= c * x <= 0x10000000000000000000000)
        by (nonlinear_arith)
        requires
            -0x10000 <= c <= 0x10000,
            -0x8000000000000000 <= x <= 0x8000000000000000,
    {}
}


/// Products of a rotation coefficient and a point coordinate stay in
/// range, before and after descaling.
proof fn lemma_rot_bounds(cs: int, sn: int, x: int, z: int)
    requires
        -(SCALE as int) <= cs <= SCALE as int,
        -(SCALE as int) <= sn <= SCALE as int,
        -(P_LIMIT as int) <= x <= P_LIMIT as int,
        -(P_LIMIT as int) <= z <= P_LIMIT as int,
    ensures
        i64::MIN * (SCALE as int) <= cs * x <= i64::MAX * (SCALE as int),
        i64::MIN * (SCALE as int) <= cs * z <= i64::MAX * (SCALE as int),
        i64::MIN * (SCALE as int) <= sn * x <= i64::MAX * (SCALE as int),
        i64::MIN * (SCALE as int) <= sn * z <= i64::MAX * (SCALE as int),
        -(P_LIMIT as int) <= fmul_s(cs, x) <= P_LIMIT as int,
        -(P_LIMIT as int) <= fmul_s(cs, z) <= P_LIMIT as int,
        -(P_LIMIT as int) <= fmul_s(sn, x) <= P_LIMIT as int,
        -(P_LIMIT as int) <= fmul_s(sn, z) <= P_LIMIT as int,
{
    lemma_rot_one(cs, x);
    lemma_rot_one(cs, z);
    lemma_rot_one(sn, x);
    lemma_rot_one(sn, z);
}

proof fn lemma_rot_one(c: int, x: int)
    requires
        -(SCALE as int) <= c <= SCALE as int,
        -(P_LIMIT as int) <= x <= P_LIMIT as int,
    ensures
        i64::MIN * (SCALE as int) <= c * x <= i64::MAX * (SCALE as int),
        -(P_LIMIT as int) <= fmul_s(c, x) <= P_LIMIT as int,
{
    let s = SCALE as int;
    let p = P_LIMIT as int;
    assert(-(p * s) <= c * x <= p * s) by (nonlinear_arith)
        requires
            -s <= c <= s,
            -p <= x <= p,
            s > 0,
            p > 0,
    {}
    crate::vec3::lemma_div_f_bounds(c * x, s, -(p * s), p * s);
    vstd::arithmetic::div_mod::lemma_div_is_ordered(-(p * s), c * x, s);
    vstd::arithmetic::div_mod::lemma_div_is_ordered(c * x, p * s, s);
    assert((p * s) / s == p) by {
        vstd::arithmetic::div_mod::lemma_fundamental_div_mod_converse_div(p * s, s, p, 0);
        assert(p * s == p * s + 0);
    }
    assert((-(p * s)) / s == -p) by {
        vstd::arithmetic::div_mod::lemma_fundamental_div_mod_converse_div(-(p * s), s, -p, 0);
        assert(-(p * s) == (-p) * s + 0) by (nonlinear_arith) {}
    }
}

} // verus!
