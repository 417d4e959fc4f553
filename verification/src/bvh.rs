//! Bounding-volume-hierarchy nodes: traversal prunes whole subtrees on
//! a single box test, and the right subtree only ever sees the window
//! up to the left subtree's hit.

use vstd::prelude::*;

verus! {

broadcast use vstd::seq_lib::group_to_multiset_ensures, vstd::seq_lib::lemma_multiset_commutative;

use crate::aabb::{surrounding_box, union_spec, AABB};
use crate::hittable::{
    bvh_covered, bvh_hit_spec, bvh_leaves, covers, lemma_hit_t_in_range, obj_box_spec, obj_wf,
    seq_wf, HitRecord, Object,
};
use crate::hittable_list::HittableList;
use crate::ray::Ray;
use crate::vec3::t_ok;
use vstd::multiset::Multiset;

/// Why a hierarchy could not be built over the given entities.
#[derive(Clone, Copy, PartialEq, Eq, Structural, Debug)]
pub enum BuildError {
    /// A child cannot report a bounding box (an unbounded entity, or
    /// an empty list, was handed to the builder).
    NoBoundingBox,
    /// A child's box has corners beyond what the slab test handles.
    OversizedBoundingBox,
}

/// The sort key the builder orders children by: the box minimum on
/// the chosen axis, of the box at time zero.
pub open spec fn box_key(o: Object, axis: int) -> int {
    crate::aabb::axis_of(obj_box_spec(o, 0, 0)->0.minimum, axis)
}

/// A box the builder can guard: ordered, and with enough headroom
/// below the slab-test coordinate bound for the guard margin.
pub open spec fn guardable(b: AABB) -> bool {
    -(crate::aabb::BOX_LIMIT - crate::hittable::BOX_PAD) <= b.minimum.x && -(crate::aabb::BOX_LIMIT
        - crate::hittable::BOX_PAD) <= b.minimum.y && -(crate::aabb::BOX_LIMIT
        - crate::hittable::BOX_PAD) <= b.minimum.z && b.maximum.x <= crate::aabb::BOX_LIMIT
        - crate::hittable::BOX_PAD && b.maximum.y <= crate::aabb::BOX_LIMIT
        - crate::hittable::BOX_PAD && b.maximum.z <= crate::aabb::BOX_LIMIT
        - crate::hittable::BOX_PAD && b.minimum.x <= b.maximum.x && b.minimum.y <= b.maximum.y
        && b.minimum.z <= b.maximum.z
}

/// What the builder needs of one entity: a box for the sort (queried
/// at time zero) and a guardable box for the node (queried at the
/// build window).
pub open spec fn buildable(o: Object, t0: int, t1: int) -> bool {
    obj_box_spec(o, 0, 0) is Some && obj_box_spec(o, t0, t1) is Some && guardable(
        obj_box_spec(o, t0, t1)->0,
    )
}

/// Grows a leaf box by the guard margin; corners too close to the
/// slab-test bound, or unordered corners, are refused.
fn pad_box(b: &AABB) -> (res: Option<AABB>)
    ensures
        (res is Some) == guardable(*b),
        res matches Some(g) ==> g == crate::hittable::pad_box_spec(*b) && g.wf() && covers(g, *b),
{
    let lim = crate::aabb::BOX_LIMIT - crate::hittable::BOX_PAD;
    if -lim <= b.minimum.x && -lim <= b.minimum.y && -lim <= b.minimum.z && b.maximum.x <= lim
        && b.maximum.y <= lim && b.maximum.z <= lim && b.minimum.x <= b.maximum.x && b.minimum.y
        <= b.maximum.y && b.minimum.z <= b.maximum.z {
        Some(
            AABB {
                minimum: crate::vec3::Vec3 {
                    x: b.minimum.x - crate::hittable::BOX_PAD,
                    y: b.minimum.y - crate::hittable::BOX_PAD,
                    z: b.minimum.z - crate::hittable::BOX_PAD,
                },
                maximum: crate::vec3::Vec3 {
                    x: b.maximum.x + crate::hittable::BOX_PAD,
                    y: b.maximum.y + crate::hittable::BOX_PAD,
                    z: b.maximum.z + crate::hittable::BOX_PAD,
                },
            },
        )
    } else {
        None
    }
}

/// Buildability is a property of an entity's value, so it carries
/// across any rearrangement.
proof fn lemma_buildable_transport(s1: Seq<Object>, s2: Seq<Object>, t0: int, t1: int)
    requires
        s1.to_multiset() == s2.to_multiset(),
        forall|i: int| 0 <= i < s1.len() ==> buildable(#[trigger] s1[i], t0, t1),
    ensures
        forall|i: int| 0 <= i < s2.len() ==> buildable(#[trigger] s2[i], t0, t1),
{
    broadcast use vstd::seq_lib::group_to_multiset_ensures;

    assert forall|i: int| 0 <= i < s2.len() implies buildable(#[trigger] s2[i], t0, t1) by {
        assert(s2.contains(s2[i]));
        assert(s2.to_multiset().count(s2[i]) > 0);
        assert(s1.to_multiset().count(s2[i]) > 0);
        assert(s1.contains(s2[i]));
        let j = choose|j: int| 0 <= j < s1.len() && s1[j] == s2[i];
        assert(buildable(s1[j], t0, t1));
    }
}

/// A node of the hierarchy.  A single-entity span has no right child;
/// traversing the left child alone is then the whole subtree.
#[derive(Debug)]
pub struct BvhNode {
    pub left: Box<Object>,
    pub right: Option<Box<Object>>,
    pub aabb_box: AABB,
}

impl BvhNode {
    /// Prune on the cached box, then try left and narrow for right.
    pub fn hit(&self, r: &Ray, t_min: i64, t_max: i64, sample: i64) -> (res: Option<HitRecord>)
        requires
            obj_wf(Object::Bvh(*self)),
            r.wf(),
            t_ok(t_min as int),
            t_ok(t_max as int),
            sample >= 0,
        ensures
            res == bvh_hit_spec(*self, *r, t_min as int, t_max as int, sample as int),
        decreases *self, 0int, 0int,
    {
        if !self.aabb_box.hit(r, t_min, t_max) {
            return None;
        }
        let hit_left = self.left.hit(r, t_min, t_max, sample);
        match &self.right {
            None => hit_left,
            Some(rt) => {
                let new_max = match &hit_left {
                    Some(h) => {
                        proof {
                            lemma_hit_t_in_range(*self.left, *r, t_min as int, t_max as int, sample as int);
                        }
                        h.t
                    },
                    None => t_max,
                };
                match rt.hit(r, t_min, new_max, sample) {
                    Some(h) => Some(h),
                    None => hit_left,
                }
            },
        }
    }

    /// The cached box; it always exists once the node does.
    pub fn bounding_box(&self, time0: i64, time1: i64) -> (res: Option<AABB>)
        ensures
            res == Some(self.aabb_box),
    {
        Some(self.aabb_box)
    }

    /// Builds a hierarchy bottom-up over the given entities: pick a
    /// split axis at random, order by each child's box minimum on that
    /// axis, split at the median and recurse.  Construction fails,
    /// rather than building a wrong tree, if any child cannot be
    /// bounded.  The tree keeps exactly the entities it was given, and
    /// each node caches exactly the union of its children's guard
    /// boxes (a leaf's exact box grown by the guard margin).  Inputs
    /// may not themselves be hierarchy nodes: leaves are modelled as
    /// the given entities, and every real caller hands over primitives
    /// and wrappers, never a pre-built tree.
    pub fn with_hittable_vec(objects: Vec<Object>, time0: i64, time1: i64) -> (res: Result<
        BvhNode,
        BuildError,
    >)
        requires
            seq_wf(objects@),
            objects@.len() >= 1,
            forall|i: int| 0 <= i < objects@.len() ==> !(#[trigger] objects@[i] is Bvh),
        ensures
            res matches Ok(node) ==> obj_wf(Object::Bvh(node)) && bvh_leaves(
                Object::Bvh(node),
            ).to_multiset() == objects@.to_multiset() && bvh_covered(
                Object::Bvh(node),
                time0 as int,
                time1 as int,
            ),
            (forall|i: int|
                0 <= i < objects@.len() ==> buildable(
                    #[trigger] objects@[i],
                    time0 as int,
                    time1 as int,
                )) ==> res is Ok,
        decreases objects@.len(),
    {
        let ghost orig = objects@;
        let ghost bt0 = time0 as int;
        let ghost bt1 = time1 as int;
        let axis = crate::utils::random_i32_with_range(0, 2);
        let mut sorted = match sort_by_axis(objects, axis) {
            Ok(s) => s,
            Err(e) => {
                return Err(e);
            },
        };
        let ghost sseq = sorted@;
        proof {
            if forall|i: int| 0 <= i < orig.len() ==> buildable(#[trigger] orig[i], bt0, bt1) {
                lemma_buildable_transport(orig, sseq, bt0, bt1);
            }
        }
        let span = sorted.len();
        if span <= 2 {
            let left = sorted.remove(0);
            let left_box = match left.bounding_box(time0, time1) {
                None => {
                    proof {
                        if forall|i: int| 0 <= i < orig.len() ==> buildable(
                            #[trigger] orig[i],
                            bt0,
                            bt1,
                        ) {
                            assert(buildable(sseq[0], bt0, bt1));
                            assert(false);
                        }
                    }
                    return Err(BuildError::NoBoundingBox);
                },
                Some(b) => b,
            };
            if span == 1 {
                let left_guard = match pad_box(&left_box) {
                    None => {
                        proof {
                            if forall|i: int| 0 <= i < orig.len() ==> buildable(
                                #[trigger] orig[i],
                                bt0,
                                bt1,
                            ) {
                                assert(buildable(sseq[0], bt0, bt1));
                                assert(false);
                            }
                        }
                        return Err(BuildError::OversizedBoundingBox);
                    },
                    Some(g) => g,
                };
                let ghost lo = left;
                let node = BvhNode { left: Box::new(left), right: None, aabb_box: left_guard };
                proof {
                    assert(lo == sseq[0] && !(lo is Bvh));
                    assert(bvh_leaves(lo) =~= seq![lo]);
                    assert(bvh_leaves(Object::Bvh(node)) =~= seq![lo]);
                    assert(sseq =~= seq![lo]);
                    assert(bvh_leaves(Object::Bvh(node)).to_multiset() == orig.to_multiset());
                    assert(obj_wf(Object::Bvh(node)));
                    assert(crate::hittable::guard_box(lo, bt0, bt1) == Some(left_guard));
                    assert(bvh_covered(lo, time0 as int, time1 as int));
                    assert(bvh_covered(Object::Bvh(node), time0 as int, time1 as int));
                }
                Ok(node)
            } else {
                let right = sorted.remove(0);
                let right_box = match right.bounding_box(time0, time1) {
                    None => {
                        proof {
                            if forall|i: int| 0 <= i < orig.len() ==> buildable(
                                #[trigger] orig[i],
                                bt0,
                                bt1,
                            ) {
                                assert(buildable(sseq[1], bt0, bt1));
                                assert(false);
                            }
                        }
                        return Err(BuildError::NoBoundingBox);
                    },
                    Some(b) => b,
                };
                let left_guard = match pad_box(&left_box) {
                    None => {
                        proof {
                            if forall|i: int| 0 <= i < orig.len() ==> buildable(
                                #[trigger] orig[i],
                                bt0,
                                bt1,
                            ) {
                                assert(buildable(sseq[0], bt0, bt1));
                                assert(false);
                            }
                        }
                        return Err(BuildError::OversizedBoundingBox);
                    },
                    Some(g) => g,
                };
                let right_guard = match pad_box(&right_box) {
                    None => {
                        proof {
                            if forall|i: int| 0 <= i < orig.len() ==> buildable(
                                #[trigger] orig[i],
                                bt0,
                                bt1,
                            ) {
                                assert(buildable(sseq[1], bt0, bt1));
                                assert(false);
                            }
                        }
                        return Err(BuildError::OversizedBoundingBox);
                    },
                    Some(g) => g,
                };
                let union = surrounding_box(left_guard, right_guard);
                let ghost lo = left;
                let ghost ro = right;
                let node = BvhNode {
                    left: Box::new(left),
                    right: Some(Box::new(right)),
                    aabb_box: union,
                };
                proof {
                    assert(lo == sseq[0] && !(lo is Bvh));
                    assert(ro == sseq[1] && !(ro is Bvh));
                    assert(bvh_leaves(lo) =~= seq![lo]);
                    assert(bvh_leaves(ro) =~= seq![ro]);
                    assert(bvh_leaves(Object::Bvh(node)) =~= seq![lo, ro]);
                    assert(sseq =~= seq![lo, ro]);
                    assert(bvh_leaves(Object::Bvh(node)).to_multiset() == orig.to_multiset());
                    assert(union.wf());
                    assert(obj_wf(Object::Bvh(node)));
                    assert(crate::hittable::guard_box(lo, bt0, bt1) == Some(left_guard));
                    assert(crate::hittable::guard_box(ro, bt0, bt1) == Some(right_guard));
                    assert(node.aabb_box == union_spec(left_guard, right_guard));
                    assert(bvh_covered(lo, time0 as int, time1 as int));
                    assert(bvh_covered(ro, time0 as int, time1 as int));
                    assert(bvh_covered(Object::Bvh(node), time0 as int, time1 as int));
                }
                Ok(node)
            }
        } else {
            let mid = span / 2;
            let right_vec = sorted.split_off(mid);
            let ghost left_half = sorted@;
            let ghost right_half = right_vec@;
            proof {
                assert(seq_wf(left_half)) by {
                    assert forall|i: int| 0 <= i < left_half.len() implies obj_wf(
                        #[trigger] left_half[i],
                    ) by {
                        assert(left_half[i] == sseq[i]);
                    }
                }
                assert(seq_wf(right_half)) by {
                    assert forall|i: int| 0 <= i < right_half.len() implies obj_wf(
                        #[trigger] right_half[i],
                    ) by {
                        assert(right_half[i] == sseq[i + mid]);
                    }
                }
                assert(forall|i: int| 0 <= i < left_half.len() ==> !(#[trigger] left_half[i] is Bvh))
                    by {
                    assert forall|i: int| 0 <= i < left_half.len() implies !(
                    #[trigger] left_half[i] is Bvh) by {
                        assert(left_half[i] == sseq[i]);
                    }
                }
                assert(forall|i: int|
                    0 <= i < right_half.len() ==> !(#[trigger] right_half[i] is Bvh)) by {
                    assert forall|i: int| 0 <= i < right_half.len() implies !(
                    #[trigger] right_half[i] is Bvh) by {
                        assert(right_half[i] == sseq[i + mid]);
                    }
                }
            }
            proof {
                if forall|i: int| 0 <= i < orig.len() ==> buildable(#[trigger] orig[i], bt0, bt1) {
                    assert forall|i: int| 0 <= i < left_half.len() implies buildable(
                        #[trigger] left_half[i],
                        bt0,
                        bt1,
                    ) by {
                        assert(left_half[i] == sseq[i]);
                    }
                    assert forall|i: int| 0 <= i < right_half.len() implies buildable(
                        #[trigger] right_half[i],
                        bt0,
                        bt1,
                    ) by {
                        assert(right_half[i] == sseq[i + mid]);
                    }
                }
            }
            let left_node = match BvhNode::with_hittable_vec(sorted, time0, time1) {
                Ok(n) => n,
                Err(e) => {
                    return Err(e);
                },
            };
            let right_node = match BvhNode::with_hittable_vec(right_vec, time0, time1) {
                Ok(n) => n,
                Err(e) => {
                    return Err(e);
                },
            };
            let union = surrounding_box(left_node.aabb_box, right_node.aabb_box);
            let node = BvhNode {
                left: Box::new(Object::Bvh(left_node)),
                right: Some(Box::new(Object::Bvh(right_node))),
                aabb_box: union,
            };
            proof {
                assert(left_half + right_half =~= sseq);
                vstd::seq_lib::lemma_multiset_commutative(left_half, right_half);
                vstd::seq_lib::lemma_multiset_commutative(
                    bvh_leaves(Object::Bvh(left_node)),
                    bvh_leaves(Object::Bvh(right_node)),
                );
                assert(bvh_leaves(Object::Bvh(node)) == bvh_leaves(Object::Bvh(left_node))
                    + bvh_leaves(Object::Bvh(right_node)));
                assert(bvh_leaves(Object::Bvh(node)).to_multiset() =~= orig.to_multiset());
                assert(union.wf());
                assert(obj_wf(Object::Bvh(node)));
                assert(crate::hittable::guard_box(Object::Bvh(left_node), bt0, bt1)
                    == Some(left_node.aabb_box));
                assert(crate::hittable::guard_box(Object::Bvh(right_node), bt0, bt1)
                    == Some(right_node.aabb_box));
                assert(node.aabb_box == union_spec(left_node.aabb_box, right_node.aabb_box));
                assert(bvh_covered(Object::Bvh(node), time0 as int, time1 as int));
                assert(bvh_leaves(Object::Bvh(node)).to_multiset() == orig.to_multiset());
            }
            Ok(node)
        }
    }

    /// Builds a hierarchy over a list's entities.
    pub fn with_hittable_list(list: HittableList, time0: i64, time1: i64) -> (res: Result<
        BvhNode,
        BuildError,
    >)
        requires
            crate::hittable::list_wf(list),
            list.objects@.len() >= 1,
            forall|i: int| 0 <= i < list.objects@.len() ==> !(#[trigger] list.objects@[i] is Bvh),
        ensures
            res matches Ok(node) ==> obj_wf(Object::Bvh(node)) && bvh_leaves(
                Object::Bvh(node),
            ).to_multiset() == list.objects@.to_multiset() && bvh_covered(
                Object::Bvh(node),
                time0 as int,
                time1 as int,
            ),
            (forall|i: int|
                0 <= i < list.objects@.len() ==> buildable(
                    #[trigger] list.objects@[i],
                    time0 as int,
                    time1 as int,
                )) ==> res is Ok,
    {
        BvhNode::with_hittable_vec(list.objects, time0, time1)
    }
}

/// Brute-force reference scan over the first `k` entities of a
/// sequence, starting from a previous best hit: each entity is probed
/// with the window narrowed to the closest hit so far, exactly as a
/// flat list scans.
pub open spec fn scan_from(
    s: Seq<Object>,
    r: Ray,
    tmin: int,
    tmax: int,
    sample: int,
    prev: Option<HitRecord>,
    k: int,
) -> Option<HitRecord>
    decreases k,
{
    if k <= 0 || k > s.len() {
        prev
    } else {
        let p = scan_from(s, r, tmin, tmax, sample, prev, k - 1);
        let cur = match p {
            Some(h) => h.t as int,
            None => tmax,
        };
        match crate::hittable::obj_hit_spec(s[k - 1], r, tmin, cur, sample) {
            Some(h) => Some(h),
            None => p,
        }
    }
}

/// Pruning soundness at the leaves: whenever a leaf entity reports a
/// hit, its guard box for the build window passes the slab test for
/// the queried interval.  `lemma_sub_bounded_leaf` proves it for
/// spheres, moving spheres, rectangles and boxes; for the rigid
/// transforms and media it remains a hypothesis of the equivalence
/// theorem.
pub open spec fn sub_bounded(o: Object, t0: int, t1: int) -> bool
    decreases o,
{
    match o {
        Object::Bvh(b) => sub_bounded(*b.left, t0, t1) && (match b.right {
            Some(rt) => sub_bounded(*rt, t0, t1),
            None => true,
        }),
        _ => forall|r: Ray, tmin: int, tmax: int, sample: int|
            r.wf() && t_ok(tmin) && t_ok(tmax) && (#[trigger] crate::hittable::obj_hit_spec(
                o,
                r,
                tmin,
                tmax,
                sample,
            )) is Some ==> match crate::hittable::guard_box(o, t0, t1) {
                Some(g) => crate::aabb::aabb_hit_spec(g, r, tmin, tmax),
                None => false,
            },
    }
}

/// A hierarchy is leaf-bounded as soon as each of its leaves is.
pub proof fn lemma_sub_bounded_from_leaves(o: Object, t0: int, t1: int)
    requires
        forall|i: int|
            0 <= i < bvh_leaves(o).len() ==> sub_bounded(#[trigger] bvh_leaves(o)[i], t0, t1),
    ensures
        sub_bounded(o, t0, t1),
    decreases o,
{
    match o {
        Object::Bvh(b) => {
            let lv_l = bvh_leaves(*b.left);
            match b.right {
                None => {
                    assert(bvh_leaves(o) =~= lv_l);
                    assert forall|i: int| 0 <= i < lv_l.len() implies sub_bounded(
                        #[trigger] lv_l[i],
                        t0,
                        t1,
                    ) by {
                        assert(lv_l[i] == bvh_leaves(o)[i]);
                    }
                    lemma_sub_bounded_from_leaves(*b.left, t0, t1);
                },
                Some(rt) => {
                    let lv_r = bvh_leaves(*rt);
                    assert(bvh_leaves(o) == lv_l + lv_r);
                    assert forall|i: int| 0 <= i < lv_l.len() implies sub_bounded(
                        #[trigger] lv_l[i],
                        t0,
                        t1,
                    ) by {
                        assert(lv_l[i] == bvh_leaves(o)[i]);
                    }
                    assert forall|i: int| 0 <= i < lv_r.len() implies sub_bounded(
                        #[trigger] lv_r[i],
                        t0,
                        t1,
                    ) by {
                        assert(lv_r[i] == bvh_leaves(o)[lv_l.len() + i]);
                    }
                    lemma_sub_bounded_from_leaves(*b.left, t0, t1);
                    lemma_sub_bounded_from_leaves(*rt, t0, t1);
                },
            }
        },
        _ => {
            assert(bvh_leaves(o) =~= seq![o]);
            assert(sub_bounded(bvh_leaves(o)[0], t0, t1));
        },
    }
}

/// Leaf-boundedness is a property of a leaf's value, so it transports
/// from the entities a hierarchy was built over to its leaves.
pub proof fn lemma_sub_bounded_from_inputs(
    node: BvhNode,
    inputs: Seq<Object>,
    t0: int,
    t1: int,
)
    requires
        bvh_leaves(Object::Bvh(node)).to_multiset() == inputs.to_multiset(),
        forall|i: int| 0 <= i < inputs.len() ==> sub_bounded(#[trigger] inputs[i], t0, t1),
    ensures
        sub_bounded(Object::Bvh(node), t0, t1),
{
    broadcast use vstd::seq_lib::group_to_multiset_ensures;

    let lv = bvh_leaves(Object::Bvh(node));
    assert forall|i: int| 0 <= i < lv.len() implies sub_bounded(#[trigger] lv[i], t0, t1) by {
        assert(lv.contains(lv[i]));
        assert(lv.to_multiset().count(lv[i]) > 0);
        assert(inputs.to_multiset().count(lv[i]) > 0);
        assert(inputs.contains(lv[i]));
        let j = choose|j: int| 0 <= j < inputs.len() && inputs[j] == lv[i];
        assert(sub_bounded(inputs[j], t0, t1));
    }
    lemma_sub_bounded_from_leaves(Object::Bvh(node), t0, t1);
}

/// `(u + w)^2`, expanded.
proof fn lemma_sq_binomial(u: int, w: int)
    ensures
        (u + w) * (u + w) == u * u + 2 * (u * w) + w * w,
{
    assert((u + w) * (u + w) == u * u + 2 * (u * w) + w * w) by (nonlinear_arith) {}
}

/// Four factors regrouped two-and-two.
proof fn lemma_regroup2(p: int, q: int, r: int, t: int)
    ensures
        (p * q) * (r * t) == (p * r) * (q * t),
{
    broadcast use vstd::arithmetic::mul::lemma_mul_is_associative, vstd::arithmetic::mul::lemma_mul_is_commutative;

    assert((p * q) * (r * t) == p * (q * (r * t)));
    assert(q * (r * t) == (q * r) * t);
    assert(q * r == r * q);
    assert((r * q) * t == r * (q * t));
    assert(p * (r * (q * t)) == (p * r) * (q * t));
}

/// Two-component Cauchy-Schwarz, for the axes a sphere query runs
/// parallel to.
proof fn lemma_cs2(dj: int, dk: int, xj: int, xk: int)
    ensures
        (dj * xj + dk * xk) * (dj * xj + dk * xk) <= (dj * dj + dk * dk) * (xj * xj + xk * xk),
{
    broadcast use vstd::arithmetic::mul::lemma_mul_is_distributive_add, vstd::arithmetic::mul::lemma_mul_is_distributive_add_other_way;

    lemma_sq_binomial(dj * xj, dk * xk);
    lemma_sq_binomial(dj * xk, dk * xj);
    lemma_regroup2(dj, xj, dj, xj);
    lemma_regroup2(dk, xk, dk, xk);
    lemma_regroup2(dj, xj, dk, xk);
    lemma_regroup2(dj, xk, dj, xk);
    lemma_regroup2(dk, xj, dk, xj);
    lemma_regroup2(dj, xk, dk, xj);
    assert((dj * dj + dk * dk) * (xj * xj + xk * xk) == (dj * dj) * (xj * xj) + (dj * dj) * (xk
        * xk) + (dk * dk) * (xj * xj) + (dk * dk) * (xk * xk));
    assert((dj * xk - dk * xj) * (dj * xk - dk * xj) == (dj * xk) * (dj * xk) - 2 * ((dj * xk) * (
    dk * xj)) + (dk * xj) * (dk * xj)) by (nonlinear_arith) {}
    assert((dj * xk - dk * xj) * (dj * xk - dk * xj) >= 0) by (nonlinear_arith) {}
}

/// A factor distributed over a three-part sum.
proof fn lemma_dist3m(m: int, p: int, q: int, r: int)
    ensures
        m * (p + q + r) == m * p + m * q + m * r,
{
    assert(m * (p + q + r) == m * p + m * q + m * r) by (nonlinear_arith) {}
}

/// A factor distributed over a three-part sum with a subtrahend.
proof fn lemma_dist3m_sub(m: int, p: int, q: int, r: int, w: int)
    ensures
        m * (p + q + r - w) == m * p + m * q + m * r - m * w,
{
    assert(m * (p + q + r - w) == m * p + m * q + m * r - m * w) by (nonlinear_arith) {}
}

/// `a * big`, expanded into the monomial groups the component squares
/// produce.
proof fn lemma_abig(a: int, cc: int, n: int, hb: int)
    ensures
        a * (a * cc + 2 * n * hb + n * n) == (a * a) * cc + 2 * ((a * n) * hb) + (n * n) * a,
{
    assert(a * (a * cc + 2 * n * hb + n * n) == (a * a) * cc + 2 * ((a * n) * hb) + (n * n) * a)
        by (nonlinear_arith) {}
}

/// Plain associativity of three factors.
proof fn lemma_assoc3(x: int, y: int, z: int)
    ensures
        x * (y * z) == (x * y) * z,
{
    assert(x * (y * z) == (x * y) * z) by (nonlinear_arith) {}
}

/// A sphere's hits land inside its guard box.  The accepted grid root
/// itself is the witness parameter: the quadratic pins the exact
/// position at the true root onto the surface, and the floor roundings
/// of the square root and the division move it by less than the guard
/// margin.
pub proof fn lemma_sub_bounded_sphere(sp: crate::sphere::Sphere, t0: int, t1: int)
    requires
        sp.wf(),
    ensures
        sub_bounded(Object::Sphere(sp), t0, t1),
{
    let o = Object::Sphere(sp);
    assert forall|r: Ray, tmin: int, tmax: int, sample: int|
        r.wf() && t_ok(tmin) && t_ok(tmax) && (#[trigger] crate::hittable::obj_hit_spec(
            o,
            r,
            tmin,
            tmax,
            sample,
        )) is Some implies match crate::hittable::guard_box(o, t0, t1) {
        Some(g) => crate::aabb::aabb_hit_spec(g, r, tmin, tmax),
        None => false,
    } by {
        let s = crate::SCALE as int;
        assert(crate::hittable::obj_hit_spec(o, r, tmin, tmax, sample)
            == crate::sphere::sphere_hit_spec(sp, r, tmin, tmax));
        let a = crate::sphere::sph_a(sp, r);
        let hb = crate::sphere::sph_half_b(sp, r);
        let cc = crate::sphere::sph_c(sp, r);
        let disc = crate::sphere::sph_disc(sp, r);
        let rad = sp.radius as int;
        assert(a != 0 && disc >= 0);
        assert(a > 0) by (nonlinear_arith)
            requires
                a == r.dir.x * r.dir.x + r.dir.y * r.dir.y + r.dir.z * r.dir.z,
                a != 0,
        {}
        let sq = crate::fixed::isqrt_spec(disc);
        crate::fixed::lemma_isqrt_exists(disc);
        let sgn: int = if tmin < crate::sphere::sph_root(sp, r, -1) < tmax {
            -1
        } else {
            1
        };
        let t = crate::sphere::sph_root(sp, r, sgn);
        assert(tmin < t < tmax);
        let n = -hb + sgn * sq;
        assert(t == (n * s) / a);
        vstd::arithmetic::div_mod::lemma_fundamental_div_mod(n * s, a);
        let rho = n * s - a * t;
        assert(0 <= rho <= a - 1);
        let bx = crate::hittable::pad_box_spec(crate::sphere::sphere_box_spec(sp));
        assert(crate::hittable::guard_box(o, t0, t1) == Some(bx));
        let big = a * cc + 2 * n * hb + n * n;
        assert(big == sq * sq - disc) by (nonlinear_arith)
            requires
                disc == hb * hb - a * cc,
                n == -hb + sgn * sq,
                sgn * sgn == 1,
                big == a * cc + 2 * n * hb + n * n,
        {}
        assert(sq * sq <= disc);
        assert(big <= 0);
        assert(hb * hb - a * cc >= 0);
        lemma_sphere_axis(sp, r, 0, a, hb, cc, n, rho, t, big);
        lemma_sphere_axis(sp, r, 1, a, hb, cc, n, rho, t, big);
        lemma_sphere_axis(sp, r, 2, a, hb, cc, n, rho, t, big);
        crate::aabb::lemma_witness_implies_hit(bx, r, tmin, tmax, t, 1);
    }
}

/// One axis of the sphere witness: parallel axes contain the origin
/// within `radius` of the centre, and crossed axes place the exact
/// position at the accepted root strictly inside the guarded extent.
proof fn lemma_sphere_axis(
    sp: crate::sphere::Sphere,
    r: Ray,
    ax: int,
    a: int,
    hb: int,
    cc: int,
    n: int,
    rho: int,
    t: int,
    big: int,
)
    requires
        sp.wf(),
        r.wf(),
        0 <= ax < 3,
        a == crate::sphere::sph_a(sp, r),
        hb == crate::sphere::sph_half_b(sp, r),
        cc == crate::sphere::sph_c(sp, r),
        a > 0,
        big == a * cc + 2 * n * hb + n * n,
        big <= 0,
        hb * hb - a * cc >= 0,
        0 <= rho <= a - 1,
        rho == n * (crate::SCALE as int) - a * t,
    ensures
        crate::aabb::axis_of(r.dir, ax) == 0 ==> crate::aabb::axis_of(
            crate::hittable::pad_box_spec(crate::sphere::sphere_box_spec(sp)).minimum,
            ax,
        ) <= crate::aabb::axis_of(r.orig, ax) <= crate::aabb::axis_of(
            crate::hittable::pad_box_spec(crate::sphere::sphere_box_spec(sp)).maximum,
            ax,
        ),
        crate::aabb::axis_of(r.dir, ax) != 0 ==> crate::aabb::strict_axis_witness(
            crate::hittable::pad_box_spec(crate::sphere::sphere_box_spec(sp)),
            r,
            t,
            1,
            ax,
        ),
{
    let s = crate::SCALE as int;
    let p = crate::hittable::BOX_PAD as int;
    let rad = sp.radius as int;
    let d = crate::aabb::axis_of(r.dir, ax);
    let o = crate::aabb::axis_of(r.orig, ax);
    let c = crate::aabb::axis_of(sp.center, ax);
    let oc = o - c;
    let bx = crate::hittable::pad_box_spec(crate::sphere::sphere_box_spec(sp));
    assert(crate::aabb::axis_of(bx.minimum, ax) == c - rad - p);
    assert(crate::aabb::axis_of(bx.maximum, ax) == c + rad + p);
    let (dj, dk, xj, xk) = other_axes(sp, r, ax);
    assert(a == d * d + dj * dj + dk * dk && hb == d * oc + dj * xj + dk * xk && cc == oc * oc + xj
        * xj + xk * xk - rad * rad);
    if d == 0 {
        lemma_cs2(dj, dk, xj, xk);
        assert(oc * oc <= rad * rad) by (nonlinear_arith)
            requires
                d == 0,
                a == d * d + dj * dj + dk * dk,
                hb == d * oc + dj * xj + dk * xk,
                cc == oc * oc + xj * xj + xk * xk - rad * rad,
                (dj * xj + dk * xk) * (dj * xj + dk * xk) <= (dj * dj + dk * dk) * (xj * xj + xk
                    * xk),
                hb * hb - a * cc >= 0,
                a > 0,
        {}
        assert(-rad <= oc <= rad) by (nonlinear_arith)
            requires
                oc * oc <= rad * rad,
                rad > 0,
        {}
    } else {
        let v = a * oc + n * d;
        let vj = a * xj + n * dj;
        let vk = a * xk + n * dk;
        lemma_sq_binomial(a * oc, n * d);
        lemma_sq_binomial(a * xj, n * dj);
        lemma_sq_binomial(a * xk, n * dk);
        lemma_regroup2(a, oc, a, oc);
        lemma_regroup2(a, xj, a, xj);
        lemma_regroup2(a, xk, a, xk);
        lemma_regroup2(a, oc, n, d);
        lemma_regroup2(a, xj, n, dj);
        lemma_regroup2(a, xk, n, dk);
        lemma_regroup2(n, d, n, d);
        lemma_regroup2(n, dj, n, dj);
        lemma_regroup2(n, dk, n, dk);
        assert(v * v == (a * a) * (oc * oc) + 2 * ((a * n) * (oc * d)) + (n * n) * (d * d));
        assert(vj * vj == (a * a) * (xj * xj) + 2 * ((a * n) * (xj * dj)) + (n * n) * (dj * dj));
        assert(vk * vk == (a * a) * (xk * xk) + 2 * ((a * n) * (xk * dk)) + (n * n) * (dk * dk));
        lemma_abig(a, cc, n, hb);
        assert(a * big == (a * a) * cc + 2 * ((a * n) * hb) + (n * n) * a);
        lemma_dist3m_sub(a * a, oc * oc, xj * xj, xk * xk, rad * rad);
        assert((a * a) * cc == (a * a) * (oc * oc) + (a * a) * (xj * xj) + (a * a) * (xk * xk) - (a
            * a) * (rad * rad));
        lemma_dist3m(a * n, d * oc, dj * xj, dk * xk);
        assert((a * n) * hb == (a * n) * (d * oc) + (a * n) * (dj * xj) + (a * n) * (dk * xk));
        lemma_dist3m(n * n, d * d, dj * dj, dk * dk);
        assert((n * n) * a == (n * n) * (d * d) + (n * n) * (dj * dj) + (n * n) * (dk * dk));
        assert((a * n) * (d * oc) == (a * n) * (oc * d)) by (nonlinear_arith) {}
        assert((a * n) * (dj * xj) == (a * n) * (xj * dj)) by (nonlinear_arith) {}
        assert((a * n) * (dk * xk) == (a * n) * (xk * dk)) by (nonlinear_arith) {}
        assert(v * v + vj * vj + vk * vk == a * big + (a * a) * (rad * rad));
        assert(vj * vj >= 0) by (nonlinear_arith) {}
        assert(vk * vk >= 0) by (nonlinear_arith) {}
        assert(a * big <= 0) by (nonlinear_arith)
            requires
                a > 0,
                big <= 0,
        {}
        lemma_regroup2(a, rad, a, rad);
        assert(v * v <= (a * rad) * (a * rad));
        assert(-(a * rad) <= v <= a * rad) by (nonlinear_arith)
            requires
                v * v <= (a * rad) * (a * rad),
                a > 0,
                rad > 0,
        {}
        let pos = o * s + t * d;
        assert(a * pos == a * (o * s) + a * (t * d)) by (nonlinear_arith)
            requires
                pos == o * s + t * d,
        {}
        lemma_assoc3(a, t, d);
        assert(a * t == n * s - rho);
        assert((a * t) * d == (n * s) * d - rho * d) by (nonlinear_arith)
            requires
                a * t == n * s - rho,
        {}
        lemma_assoc3(a, o, s);
        assert(a * (o * s) == (a * o) * s);
        assert(a * o == a * oc + a * c) by (nonlinear_arith)
            requires
                oc == o - c,
        {}
        assert((a * o) * s == (a * oc) * s + (a * c) * s) by (nonlinear_arith)
            requires
                a * o == a * oc + a * c,
        {}
        assert(v * s == (a * oc) * s + (n * d) * s) by (nonlinear_arith)
            requires
                v == a * oc + n * d,
        {}
        assert((n * d) * s == (n * s) * d) by (nonlinear_arith) {}
        assert(a * pos == v * s + (a * c) * s - rho * d);
        assert(-((a - 1) * 0x4000000) <= rho * d <= (a - 1) * 0x4000000) by (nonlinear_arith)
            requires
                0 <= rho <= a - 1,
                -0x4000000 <= d <= 0x4000000,
        {}
        assert(-((a * rad) * s) <= v * s <= (a * rad) * s) by (nonlinear_arith)
            requires
                -(a * rad) <= v <= a * rad,
                s == 65536,
        {}
        assert((a - 1) * 0x4000000 < a * (p * s)) by (nonlinear_arith)
            requires
                a > 0,
                p == 2048,
                s == 65536,
        {}
        assert(a * ((c - rad - p) * s) == (a * c) * s - (a * rad) * s - a * (p * s))
            by (nonlinear_arith) {}
        assert(a * ((c + rad + p) * s) == (a * c) * s + (a * rad) * s + a * (p * s))
            by (nonlinear_arith) {}
        assert(a * ((c - rad - p) * s) < a * pos < a * ((c + rad + p) * s));
        assert((c - rad - p) * s < pos) by (nonlinear_arith)
            requires
                a * ((c - rad - p) * s) < a * pos,
                a > 0,
        {}
        assert(pos < (c + rad + p) * s) by (nonlinear_arith)
            requires
                a * pos < a * ((c + rad + p) * s),
                a > 0,
        {}
        assert((c - rad - p) * 1 * s == (c - rad - p) * s && o * 1 * s + t * d == pos && (c + rad
            + p) * 1 * s == (c + rad + p) * s);
        assert(crate::aabb::strict_axis_witness(bx, r, t, 1, ax));
    }
}

/// The clamped fixed-point interpolation never leaves the segment
/// between its endpoints.
proof fn lemma_interp_between(c0: int, c1: int, f: int)
    requires
        0 <= f <= crate::SCALE as int,
        -(crate::vec3::COORD_LIMIT as int) <= c0 <= crate::vec3::COORD_LIMIT as int,
        -(crate::vec3::COORD_LIMIT as int) <= c1 <= crate::vec3::COORD_LIMIT as int,
    ensures
        crate::hittable::imin(c0, c1) <= crate::moving_sphere::center_component(c0, c1, f)
            <= crate::hittable::imax(c0, c1),
{
    let s = crate::SCALE as int;
    let diff = c1 - c0;
    if diff >= 0 {
        assert(0 <= f * diff <= s * diff) by (nonlinear_arith)
            requires
                0 <= f <= s,
                diff >= 0,
        {}
        vstd::arithmetic::div_mod::lemma_div_pos_is_pos(f * diff, s);
        vstd::arithmetic::div_mod::lemma_div_is_ordered(f * diff, s * diff, s);
        assert((s * diff) / s == diff) by {
            vstd::arithmetic::div_mod::lemma_fundamental_div_mod_converse_div(s * diff, s, diff, 0);
            assert(s * diff == diff * s + 0) by (nonlinear_arith) {}
        }
        assert(0 <= crate::vec3::fmul_s(f, diff) <= diff);
    } else {
        assert(s * diff <= f * diff <= 0) by (nonlinear_arith)
            requires
                0 <= f <= s,
                diff < 0,
        {}
        vstd::arithmetic::div_mod::lemma_div_is_ordered(s * diff, f * diff, s);
        vstd::arithmetic::div_mod::lemma_div_is_ordered(f * diff, 0, s);
        assert((s * diff) / s == diff) by {
            vstd::arithmetic::div_mod::lemma_fundamental_div_mod_converse_div(s * diff, s, diff, 0);
            assert(s * diff == diff * s + 0) by (nonlinear_arith) {}
        }
        assert(0int / s == 0) by {
            vstd::arithmetic::div_mod::lemma_div_of0(s);
        }
        assert(diff <= crate::vec3::fmul_s(f, diff) <= 0);
    }
}

/// The interpolation numerator stays within `[0, SCALE]`.
proof fn lemma_frac_range(m: crate::moving_sphere::MovingSphere, time: int)
    requires
        m.wf(),
    ensures
        0 <= crate::moving_sphere::time_frac(m, time) <= crate::SCALE as int,
{
    let s = crate::SCALE as int;
    let tc: int = if time < m.time0 {
        m.time0 as int
    } else if time > m.time1 {
        m.time1 as int
    } else {
        time
    };
    let dt = m.time1 - m.time0;
    assert(0 <= s * (tc - m.time0) <= s * dt) by (nonlinear_arith)
        requires
            m.time0 <= tc <= m.time1,
            dt == m.time1 - m.time0,
            s == 65536,
    {}
    vstd::arithmetic::div_mod::lemma_div_pos_is_pos(s * (tc - m.time0), dt);
    vstd::arithmetic::div_mod::lemma_div_is_ordered(s * (tc - m.time0), s * dt, dt);
    assert((s * dt) / dt == s) by {
        vstd::arithmetic::div_mod::lemma_fundamental_div_mod_converse_div(s * dt, dt, s, 0);
        assert(s * dt == s * dt + 0);
    }
}

/// At a time at or before the motion window the interpolated centre is
/// the first endpoint; at or beyond it, the second.
proof fn lemma_center_endpoints(m: crate::moving_sphere::MovingSphere)
    requires
        m.wf(),
    ensures
        forall|time: int|
            time <= m.time0 ==> #[trigger] crate::moving_sphere::center_at_spec(m, time)
                == m.center0,
        forall|time: int|
            time >= m.time1 ==> #[trigger] crate::moving_sphere::center_at_spec(m, time)
                == m.center1,
{
    let s = crate::SCALE as int;
    assert forall|time: int| time <= m.time0 implies #[trigger] crate::moving_sphere::center_at_spec(
        m,
        time,
    ) == m.center0 by {
        assert(crate::moving_sphere::time_frac(m, time) == 0int / (m.time1 - m.time0));
        vstd::arithmetic::div_mod::lemma_div_of0(m.time1 - m.time0);
        assert(0 * (m.center1.x - m.center0.x) == 0) by (nonlinear_arith) {}
        assert(0 * (m.center1.y - m.center0.y) == 0) by (nonlinear_arith) {}
        assert(0 * (m.center1.z - m.center0.z) == 0) by (nonlinear_arith) {}
        vstd::arithmetic::div_mod::lemma_div_of0(s);
    }
    assert forall|time: int| time >= m.time1 implies #[trigger] crate::moving_sphere::center_at_spec(
        m,
        time,
    ) == m.center1 by {
        let dt = m.time1 - m.time0;
        assert(crate::moving_sphere::time_frac(m, time) == (s * dt) / dt);
        assert((s * dt) / dt == s) by {
            vstd::arithmetic::div_mod::lemma_fundamental_div_mod_converse_div(s * dt, dt, s, 0);
            assert(s * dt == s * dt + 0);
        }
        lemma_endpoint_component(m.center0.x as int, m.center1.x as int);
        lemma_endpoint_component(m.center0.y as int, m.center1.y as int);
        lemma_endpoint_component(m.center0.z as int, m.center1.z as int);
    }
}

/// Interpolating with the full numerator lands exactly on the second
/// endpoint.
proof fn lemma_endpoint_component(c0: int, c1: int)
    requires
        -(crate::vec3::COORD_LIMIT as int) <= c0 <= crate::vec3::COORD_LIMIT as int,
        -(crate::vec3::COORD_LIMIT as int) <= c1 <= crate::vec3::COORD_LIMIT as int,
    ensures
        crate::moving_sphere::center_component(c0, c1, crate::SCALE as int) == c1,
{
    let s = crate::SCALE as int;
    let diff = c1 - c0;
    assert((s * diff) / s == diff) by {
        vstd::arithmetic::div_mod::lemma_fundamental_div_mod_converse_div(s * diff, s, diff, 0);
        assert(s * diff == diff * s + 0) by (nonlinear_arith) {}
    }
    assert(crate::vec3::fmul_s(s, diff) == diff) by {
        assert(s * diff == diff * s) by (nonlinear_arith) {}
    }
}

/// A moving sphere's hits land inside its guard box, provided the
/// build window covers the motion window: the centre at any shutter
/// time then lies on the segment between the endpoint centres, whose
/// boxes the cached union holds.
pub proof fn lemma_sub_bounded_moving_sphere(
    m: crate::moving_sphere::MovingSphere,
    t0: int,
    t1: int,
)
    requires
        m.wf(),
        t0 <= m.time0,
        t1 >= m.time1,
    ensures
        sub_bounded(Object::MovingSphere(m), t0, t1),
{
    let o = Object::MovingSphere(m);
    lemma_center_endpoints(m);
    assert forall|r: Ray, tmin: int, tmax: int, sample: int|
        r.wf() && t_ok(tmin) && t_ok(tmax) && (#[trigger] crate::hittable::obj_hit_spec(
            o,
            r,
            tmin,
            tmax,
            sample,
        )) is Some implies match crate::hittable::guard_box(o, t0, t1) {
        Some(g) => crate::aabb::aabb_hit_spec(g, r, tmin, tmax),
        None => false,
    } by {
        let sp = crate::moving_sphere::sphere_at_spec(m, r.tm as int);
        assert(crate::hittable::obj_hit_spec(o, r, tmin, tmax, sample)
            == crate::sphere::sphere_hit_spec(sp, r, tmin, tmax));
        lemma_frac_range(m, r.tm as int);
        lemma_interp_between(m.center0.x as int, m.center1.x as int, crate::moving_sphere::time_frac(m, r.tm as int));
        lemma_interp_between(m.center0.y as int, m.center1.y as int, crate::moving_sphere::time_frac(m, r.tm as int));
        lemma_interp_between(m.center0.z as int, m.center1.z as int, crate::moving_sphere::time_frac(m, r.tm as int));
        assert(sp.wf());
        lemma_sub_bounded_sphere(sp, t0, t1);
        assert(crate::hittable::obj_hit_spec(Object::Sphere(sp), r, tmin, tmax, sample)
            == crate::sphere::sphere_hit_spec(sp, r, tmin, tmax));
        let small = crate::hittable::pad_box_spec(crate::sphere::sphere_box_spec(sp));
        assert(crate::aabb::aabb_hit_spec(small, r, tmin, tmax));
        assert(crate::moving_sphere::center_at_spec(m, t0) == m.center0);
        assert(crate::moving_sphere::center_at_spec(m, t1) == m.center1);
        let g = crate::hittable::pad_box_spec(
            crate::moving_sphere::moving_sphere_box_spec(m, t0, t1),
        );
        assert(crate::hittable::guard_box(o, t0, t1) == Some(g));
        crate::aabb::lemma_covers_hit(small, g, r, tmin, tmax);
    }
}

/// A hit reported by the face scan of a box comes from one of the six
/// faces, probed with some window inside the query's, and rectangle
/// hits lie strictly inside their window.
proof fn lemma_cube_scan_member(
    sides: Seq<Object>,
    p0: crate::vec3::Vec3,
    p1: crate::vec3::Vec3,
    mat: u64,
    r: Ray,
    tmin: int,
    tmax: int,
    sample: int,
    k: int,
)
    requires
        sides == crate::cube::cube_sides_spec(p0, p1, mat),
        0 <= k <= 6,
        t_ok(tmin),
        t_ok(tmax),
        scan_from(sides, r, tmin, tmax, sample, None, k) is Some,
    ensures
        tmin < scan_from(sides, r, tmin, tmax, sample, None, k)->0.t as int,
        (scan_from(sides, r, tmin, tmax, sample, None, k)->0.t as int) < tmax,
        exists|i: int, w: int|
            0 <= i < k && tmin < w <= tmax && #[trigger] crate::hittable::obj_hit_spec(
                sides[i],
                r,
                tmin,
                w,
                sample,
            ) == Some(scan_from(sides, r, tmin, tmax, sample, None, k)->0),
    decreases k,
{
    if k > 0 {
        let p = scan_from(sides, r, tmin, tmax, sample, None, k - 1);
        if p is Some {
            lemma_cube_scan_member(sides, p0, p1, mat, r, tmin, tmax, sample, k - 1);
        }
        let cur = match p {
            Some(h) => h.t as int,
            None => tmax,
        };
        let e = crate::hittable::obj_hit_spec(sides[k - 1], r, tmin, cur, sample);
        if e is Some {
            if k == 1 {
                assert(sides[0] == Object::XYRect(crate::aarec::XYRect { mat, x0: p0.x, x1: p1.x, y0: p0.y, y1: p1.y, k: p1.z }));
            } else if k == 2 {
                assert(sides[1] == Object::XYRect(crate::aarec::XYRect { mat, x0: p0.x, x1: p1.x, y0: p0.y, y1: p1.y, k: p0.z }));
            } else if k == 3 {
                assert(sides[2] == Object::XZRect(crate::aarec::XZRect { mat, x0: p0.x, x1: p1.x, z0: p0.z, z1: p1.z, k: p1.y }));
            } else if k == 4 {
                assert(sides[3] == Object::XZRect(crate::aarec::XZRect { mat, x0: p0.x, x1: p1.x, z0: p0.z, z1: p1.z, k: p0.y }));
            } else if k == 5 {
                assert(sides[4] == Object::YZRect(crate::aarec::YZRect { mat, y0: p0.y, y1: p1.y, z0: p0.z, z1: p1.z, k: p1.x }));
            } else if k == 6 {
                assert(sides[5] == Object::YZRect(crate::aarec::YZRect { mat, y0: p0.y, y1: p1.y, z0: p0.z, z1: p1.z, k: p0.x }));
            }
            assert(tmin < e->0.t && (e->0.t as int) < cur);
            assert(tmin < cur <= tmax);
            assert(crate::hittable::obj_hit_spec(sides[k - 1], r, tmin, cur, sample) == Some(
                scan_from(sides, r, tmin, tmax, sample, None, k)->0,
            ));
        } else {
            let h = scan_from(sides, r, tmin, tmax, sample, None, k)->0;
            assert(scan_from(sides, r, tmin, tmax, sample, None, k) == p);
            let (i0, w0) = choose|i: int, w: int|
                0 <= i < k - 1 && tmin < w <= tmax && #[trigger] crate::hittable::obj_hit_spec(
                    sides[i],
                    r,
                    tmin,
                    w,
                    sample,
                ) == Some(h);
            assert(crate::hittable::obj_hit_spec(sides[i0], r, tmin, w0, sample) == Some(h));
        }
    }
}

/// A box's hits land inside its guard box, for a box whose faces are
/// the six canonical rectangles of its corners: every face hit crosses
/// its plane at a corner coordinate and inside the corner extents, so
/// the exact crossing sits strictly inside the guarded corner box.
pub proof fn lemma_sub_bounded_cube(c: crate::cube::Cube, mat: u64, t0: int, t1: int)
    requires
        c.cube_min.wf(),
        c.cube_max.wf(),
        c.sides.objects@ == crate::cube::cube_sides_spec(c.cube_min, c.cube_max, mat),
    ensures
        sub_bounded(Object::Cube(c), t0, t1),
{
    let o = Object::Cube(c);
    let p0 = c.cube_min;
    let p1 = c.cube_max;
    let sides = c.sides.objects@;
    assert forall|r: Ray, tmin: int, tmax: int, sample: int|
        r.wf() && t_ok(tmin) && t_ok(tmax) && (#[trigger] crate::hittable::obj_hit_spec(
            o,
            r,
            tmin,
            tmax,
            sample,
        )) is Some implies match crate::hittable::guard_box(o, t0, t1) {
        Some(g) => crate::aabb::aabb_hit_spec(g, r, tmin, tmax),
        None => false,
    } by {
        assert(crate::hittable::obj_hit_spec(o, r, tmin, tmax, sample)
            == crate::hittable::list_hit_spec(c.sides, r, tmin, tmax, sample, 6));
        lemma_list_is_scan(c.sides, r, tmin, tmax, sample, 6);
        lemma_cube_scan_member(sides, p0, p1, mat, r, tmin, tmax, sample, 6);
        let h = scan_from(sides, r, tmin, tmax, sample, None, 6)->0;
        let (i0, w0) = choose|i: int, w: int|
            0 <= i < 6 && tmin < w <= tmax && #[trigger] crate::hittable::obj_hit_spec(
                sides[i],
                r,
                tmin,
                w,
                sample,
            ) == Some(h);
        let bx = crate::hittable::pad_box_spec(crate::cube::cube_box_spec(c));
        assert(crate::hittable::guard_box(o, t0, t1) == Some(bx));
        let lox = crate::hittable::imin(p0.x as int, p1.x as int);
        let hix = crate::hittable::imax(p0.x as int, p1.x as int);
        let loy = crate::hittable::imin(p0.y as int, p1.y as int);
        let hiy = crate::hittable::imax(p0.y as int, p1.y as int);
        let loz = crate::hittable::imin(p0.z as int, p1.z as int);
        let hiz = crate::hittable::imax(p0.z as int, p1.z as int);
        assert(crate::aabb::axis_of(bx.minimum, 0) == lox - crate::hittable::BOX_PAD);
        assert(crate::aabb::axis_of(bx.maximum, 0) == hix + crate::hittable::BOX_PAD);
        assert(crate::aabb::axis_of(bx.minimum, 1) == loy - crate::hittable::BOX_PAD);
        assert(crate::aabb::axis_of(bx.maximum, 1) == hiy + crate::hittable::BOX_PAD);
        assert(crate::aabb::axis_of(bx.minimum, 2) == loz - crate::hittable::BOX_PAD);
        assert(crate::aabb::axis_of(bx.maximum, 2) == hiz + crate::hittable::BOX_PAD);
        if i0 == 0 || i0 == 1 {
            let k: int = if i0 == 0 {
                p1.z as int
            } else {
                p0.z as int
            };
            assert(crate::hittable::obj_hit_spec(sides[i0], r, tmin, w0, sample) == Some(h));
            let dz = r.dir.z as int;
            let oz = r.orig.z as int;
            assert(dz != 0);
            let t = crate::aarec::plane_t(k, oz, dz);
            assert(tmin < t < w0);
            lemma_cube_face_witness(
                bx, r, tmin, tmax, w0, t, k, oz, dz, 2, 0, 1,
                lox, hix, loy, hiy, loz, hiz,
            );
        } else if i0 == 2 || i0 == 3 {
            let k: int = if i0 == 2 {
                p1.y as int
            } else {
                p0.y as int
            };
            assert(crate::hittable::obj_hit_spec(sides[i0], r, tmin, w0, sample) == Some(h));
            let dy = r.dir.y as int;
            let oy = r.orig.y as int;
            assert(dy != 0);
            let t = crate::aarec::plane_t(k, oy, dy);
            assert(tmin < t < w0);
            lemma_cube_face_witness(
                bx, r, tmin, tmax, w0, t, k, oy, dy, 1, 0, 2,
                lox, hix, loz, hiz, loy, hiy,
            );
        } else {
            let k: int = if i0 == 4 {
                p1.x as int
            } else {
                p0.x as int
            };
            assert(crate::hittable::obj_hit_spec(sides[i0], r, tmin, w0, sample) == Some(h));
            let dx = r.dir.x as int;
            let ox = r.orig.x as int;
            assert(dx != 0);
            let t = crate::aarec::plane_t(k, ox, dx);
            assert(tmin < t < w0);
            lemma_cube_face_witness(
                bx, r, tmin, tmax, w0, t, k, ox, dx, 0, 1, 2,
                loy, hiy, loz, hiz, lox, hix,
            );
        }
    }
}

/// The witness argument for one face of a box: the exact plane
/// crossing sits on a corner coordinate inside the guarded extents.
/// `fa` is the flat axis, `a1`/`a2` the in-plane axes with extents
/// `(lo1, hi1)` / `(lo2, hi2)`, and `(lof, hif)` the corner extents on
/// the flat axis, with `lof <= k <= hif`.
proof fn lemma_cube_face_witness(
    bx: AABB,
    r: Ray,
    tmin: int,
    tmax: int,
    w0: int,
    t: int,
    k: int,
    of: int,
    df: int,
    fa: int,
    a1: int,
    a2: int,
    lo1: int,
    hi1: int,
    lo2: int,
    hi2: int,
    lof: int,
    hif: int,
)
    requires
        r.wf(),
        df != 0,
        df == crate::aabb::axis_of(r.dir, fa),
        of == crate::aabb::axis_of(r.orig, fa),
        0 <= fa < 3,
        0 <= a1 < 3,
        0 <= a2 < 3,
        fa != a1 && fa != a2 && a1 != a2,
        t == crate::aarec::plane_t(k, of, df),
        tmin < t,
        t < w0,
        w0 <= tmax,
        lof <= k <= hif,
        lo1 <= crate::aabb::axis_of(r.orig, a1) + crate::vec3::fmul_s(
            t,
            crate::aabb::axis_of(r.dir, a1),
        ) <= hi1,
        lo2 <= crate::aabb::axis_of(r.orig, a2) + crate::vec3::fmul_s(
            t,
            crate::aabb::axis_of(r.dir, a2),
        ) <= hi2,
        crate::aabb::axis_of(bx.minimum, a1) == lo1 - crate::hittable::BOX_PAD,
        crate::aabb::axis_of(bx.maximum, a1) == hi1 + crate::hittable::BOX_PAD,
        crate::aabb::axis_of(bx.minimum, a2) == lo2 - crate::hittable::BOX_PAD,
        crate::aabb::axis_of(bx.maximum, a2) == hi2 + crate::hittable::BOX_PAD,
        crate::aabb::axis_of(bx.minimum, fa) == lof - crate::hittable::BOX_PAD,
        crate::aabb::axis_of(bx.maximum, fa) == hif + crate::hittable::BOX_PAD,
    ensures
        crate::aabb::aabb_hit_spec(bx, r, tmin, tmax),
{
    let s = crate::SCALE as int;
    let tn: int = if df > 0 {
        s * (k - of)
    } else {
        -(s * (k - of))
    };
    let td: int = if df > 0 {
        df
    } else {
        -df
    };
    assert(t == tn / td);
    vstd::arithmetic::div_mod::lemma_fundamental_div_mod(tn, td);
    assert(td * t <= tn <= td * t + td - 1);
    assert(tmin * td < tn && tn < tmax * td) by (nonlinear_arith)
        requires
            tmin < t,
            t < tmax,
            td > 0,
            td * t <= tn <= td * t + td - 1,
    {}
    assert(crate::aabb::strict_axis_witness(bx, r, tn, td, fa)) by {
        assert(of * td * s + tn * df == k * td * s) by (nonlinear_arith)
            requires
                (df > 0 && tn == s * (k - of) && td == df) || (df < 0 && tn == -(s * (k - of))
                    && td == -df),
        {}
        assert(crate::aabb::axis_of(bx.minimum, fa) < k && k < crate::aabb::axis_of(
            bx.maximum,
            fa,
        ));
        assert(crate::aabb::axis_of(bx.minimum, fa) * td * s < k * td * s < crate::aabb::axis_of(
            bx.maximum,
            fa,
        ) * td * s) by (nonlinear_arith)
            requires
                crate::aabb::axis_of(bx.minimum, fa) < k < crate::aabb::axis_of(bx.maximum, fa),
                td > 0,
                s == 65536,
        {}
    }
    lemma_plane_axis_witness(bx, r, tn, td, a1, lo1, hi1, t);
    lemma_plane_axis_witness(bx, r, tn, td, a2, lo2, hi2, t);
    assert forall|a: int|
        0 <= a < 3 && crate::aabb::axis_of(r.dir, a) == 0 implies crate::aabb::axis_of(
        bx.minimum,
        a,
    ) <= crate::aabb::axis_of(r.orig, a) <= crate::aabb::axis_of(bx.maximum, a) by {
        assert(a == a1 || a == a2);
    }
    assert forall|a: int|
        0 <= a < 3 && crate::aabb::axis_of(r.dir, a) != 0 implies #[trigger] crate::aabb::strict_axis_witness(
        bx,
        r,
        tn,
        td,
        a,
    ) by {
        if a == fa {
        } else {
            assert(a == a1 || a == a2);
        }
    }
    crate::aabb::lemma_witness_implies_hit(bx, r, tmin, tmax, tn, td);
}

/// The leaf shapes whose guard-box containment is proved: well-formed
/// spheres and rectangles, boxes with the six canonical faces, and
/// moving spheres whose motion window the build window covers.
pub open spec fn bounded_leaf(o: Object, t0: int, t1: int) -> bool {
    match o {
        Object::Sphere(s) => s.wf(),
        Object::MovingSphere(m) => m.wf() && t0 <= m.time0 && t1 >= m.time1,
        Object::XYRect(x) => x.wf(),
        Object::XZRect(x) => x.wf(),
        Object::YZRect(x) => x.wf(),
        Object::Cube(c) => c.cube_min.wf() && c.cube_max.wf() && exists|mat: u64|
            c.sides.objects@ == crate::cube::cube_sides_spec(c.cube_min, c.cube_max, mat),
        _ => false,
    }
}

/// Every recognised leaf shape is leaf-bounded.
pub proof fn lemma_sub_bounded_leaf(o: Object, t0: int, t1: int)
    requires
        bounded_leaf(o, t0, t1),
    ensures
        sub_bounded(o, t0, t1),
{
    match o {
        Object::Sphere(s) => lemma_sub_bounded_sphere(s, t0, t1),
        Object::MovingSphere(m) => lemma_sub_bounded_moving_sphere(m, t0, t1),
        Object::XYRect(x) => lemma_sub_bounded_xyrect(x, t0, t1),
        Object::XZRect(x) => lemma_sub_bounded_xzrect(x, t0, t1),
        Object::YZRect(x) => lemma_sub_bounded_yzrect(x, t0, t1),
        Object::Cube(c) => {
            let mat = choose|mat: u64|
                c.sides.objects@ == crate::cube::cube_sides_spec(c.cube_min, c.cube_max, mat);
            lemma_sub_bounded_cube(c, mat, t0, t1);
        },
        _ => {},
    }
}

/// The two ray/centre components other than axis `ax`.
spec fn other_axes(sp: crate::sphere::Sphere, r: Ray, ax: int) -> (int, int, int, int) {
    if ax == 0 {
        (r.dir.y as int, r.dir.z as int, r.orig.y - sp.center.y, r.orig.z - sp.center.z)
    } else if ax == 1 {
        (r.dir.x as int, r.dir.z as int, r.orig.x - sp.center.x, r.orig.z - sp.center.z)
    } else {
        (r.dir.x as int, r.dir.y as int, r.orig.x - sp.center.x, r.orig.y - sp.center.y)
    }
}

/// Bounded deviation of a grid-evaluated in-plane coordinate: if the
/// rounded coordinate `o + q` lies within the rectangle extent, the
/// exact coordinate at the rational parameter `tn / td` lies strictly
/// within the extent padded by `BOX_PAD`.
proof fn lemma_axis_dev(o: int, d: int, q: int, lo: int, hi: int, t: int, tn: int, td: int)
    requires
        0 < td <= 0x4000000,
        -0x4000000 <= d <= 0x4000000,
        td * t <= tn <= td * t + td - 1,
        (crate::SCALE as int) * q <= t * d <= (crate::SCALE as int) * q + (crate::SCALE as int) - 1,
        lo <= o + q <= hi,
    ensures
        (lo - crate::hittable::BOX_PAD) * td * (crate::SCALE as int) < o * td * (crate::SCALE as int)
            + tn * d,
        o * td * (crate::SCALE as int) + tn * d < (hi + crate::hittable::BOX_PAD) * td * (
        crate::SCALE as int),
{
    let s = crate::SCALE as int;
    let p = crate::hittable::BOX_PAD as int;
    assert(tn * d >= td * (s * q) - td * 0x4000000) by (nonlinear_arith)
        requires
            0 < td,
            -0x4000000 <= d <= 0x4000000,
            td * t <= tn <= td * t + td - 1,
            s * q <= t * d,
            s == 65536,
    {}
    assert(tn * d <= td * (s * q) + td * (s - 1) + td * 0x4000000) by (nonlinear_arith)
        requires
            0 < td,
            -0x4000000 <= d <= 0x4000000,
            td * t <= tn <= td * t + td - 1,
            t * d <= s * q + s - 1,
            s == 65536,
    {}
    assert((lo - p) * td * s < o * td * s + td * (s * q) - td * 0x4000000) by (nonlinear_arith)
        requires
            0 < td,
            lo <= o + q,
            s == 65536,
            p == 2048,
    {}
    assert(o * td * s + td * (s * q) + td * (s - 1) + td * 0x4000000 < (hi + p) * td * s)
        by (nonlinear_arith)
        requires
            0 < td,
            o + q <= hi,
            s == 65536,
            p == 2048,
    {}
}

/// A rectangle's hits land inside its guard box: the exact plane
/// crossing is the witness parameter, sitting exactly on the plane and
/// within a grid step of the checked in-plane coordinates.
pub proof fn lemma_sub_bounded_xyrect(x: crate::aarec::XYRect, t0: int, t1: int)
    requires
        x.wf(),
    ensures
        sub_bounded(Object::XYRect(x), t0, t1),
{
    let o = Object::XYRect(x);
    assert forall|r: Ray, tmin: int, tmax: int, sample: int|
        r.wf() && t_ok(tmin) && t_ok(tmax) && (#[trigger] crate::hittable::obj_hit_spec(
            o,
            r,
            tmin,
            tmax,
            sample,
        )) is Some implies match crate::hittable::guard_box(o, t0, t1) {
        Some(g) => crate::aabb::aabb_hit_spec(g, r, tmin, tmax),
        None => false,
    } by {
        let s = crate::SCALE as int;
        assert(crate::hittable::obj_hit_spec(o, r, tmin, tmax, sample) == x.hit_spec(
            r,
            tmin,
            tmax,
        ));
        let dz = r.dir.z as int;
        let oz = r.orig.z as int;
        let k = x.k as int;
        assert(dz != 0);
        let t = crate::aarec::plane_t(k, oz, dz);
        assert(tmin < t < tmax);
        let tn: int = if dz > 0 {
            s * (k - oz)
        } else {
            -(s * (k - oz))
        };
        let td: int = if dz > 0 {
            dz
        } else {
            -dz
        };
        assert(t == tn / td);
        vstd::arithmetic::div_mod::lemma_fundamental_div_mod(tn, td);
        assert(td * t <= tn <= td * t + td - 1);
        assert(tmin * td < tn && tn < tmax * td) by (nonlinear_arith)
            requires
                tmin < t,
                t < tmax,
                td > 0,
                td * t <= tn <= td * t + td - 1,
        {}
        let bx = crate::hittable::pad_box_spec(x.box_spec());
        assert(obj_box_spec(o, t0, t1) == Some(x.box_spec()));
        assert(crate::hittable::guard_box(o, t0, t1) == Some(bx));
        assert(crate::aabb::axis_of(bx.minimum, 0) == x.x0 - crate::hittable::BOX_PAD);
        assert(crate::aabb::axis_of(bx.maximum, 0) == x.x1 + crate::hittable::BOX_PAD);
        assert(crate::aabb::axis_of(bx.minimum, 1) == x.y0 - crate::hittable::BOX_PAD);
        assert(crate::aabb::axis_of(bx.maximum, 1) == x.y1 + crate::hittable::BOX_PAD);
        assert(crate::aabb::axis_of(bx.minimum, 2) == x.k - crate::aarec::FLAT_EPS
            - crate::hittable::BOX_PAD);
        assert(crate::aabb::axis_of(bx.maximum, 2) == x.k + crate::aarec::FLAT_EPS
            + crate::hittable::BOX_PAD);
        assert(crate::aabb::strict_axis_witness(bx, r, tn, td, 2)) by {
            assert(oz * td * s + tn * dz == k * td * s) by (nonlinear_arith)
                requires
                    (dz > 0 && tn == s * (k - oz) && td == dz) || (dz < 0 && tn == -(s * (k - oz))
                        && td == -dz),
            {}
            assert(crate::aabb::axis_of(bx.minimum, 2) < k && k < crate::aabb::axis_of(
                bx.maximum,
                2,
            ));
            assert(crate::aabb::axis_of(bx.minimum, 2) * td * s < k * td * s < crate::aabb::axis_of(
                bx.maximum,
                2,
            ) * td * s) by (nonlinear_arith)
                requires
                    crate::aabb::axis_of(bx.minimum, 2) < k < crate::aabb::axis_of(bx.maximum, 2),
                    td > 0,
                    s == 65536,
            {}
        }
        let xx = r.orig.x + crate::vec3::fmul_s(t, r.dir.x as int);
        let yy = r.orig.y + crate::vec3::fmul_s(t, r.dir.y as int);
        assert(x.x0 <= xx <= x.x1 && x.y0 <= yy <= x.y1);
        lemma_plane_axis_witness(
            bx,
            r,
            tn,
            td,
            0,
            x.x0 as int,
            x.x1 as int,
            t,
        );
        lemma_plane_axis_witness(
            bx,
            r,
            tn,
            td,
            1,
            x.y0 as int,
            x.y1 as int,
            t,
        );
        crate::aabb::lemma_witness_implies_hit(bx, r, tmin, tmax, tn, td);
    }
}

/// Establishes the witness condition on one in-plane axis `a`, whose
/// padded box bounds are `lo - BOX_PAD` and `hi + BOX_PAD`, from the
/// checked grid coordinate.
proof fn lemma_plane_axis_witness(
    bx: AABB,
    r: Ray,
    tn: int,
    td: int,
    a: int,
    lo: int,
    hi: int,
    t: int,
)
    requires
        r.wf(),
        0 <= a < 3,
        0 < td <= 0x4000000,
        td * t <= tn <= td * t + td - 1,
        crate::aabb::axis_of(bx.minimum, a) == lo - crate::hittable::BOX_PAD,
        crate::aabb::axis_of(bx.maximum, a) == hi + crate::hittable::BOX_PAD,
        lo <= crate::aabb::axis_of(r.orig, a) + crate::vec3::fmul_s(t, crate::aabb::axis_of(r.dir, a))
            <= hi,
    ensures
        crate::aabb::axis_of(r.dir, a) == 0 ==> crate::aabb::axis_of(bx.minimum, a)
            <= crate::aabb::axis_of(r.orig, a) <= crate::aabb::axis_of(bx.maximum, a),
        crate::aabb::axis_of(r.dir, a) != 0 ==> crate::aabb::strict_axis_witness(bx, r, tn, td, a),
{
    let s = crate::SCALE as int;
    let d = crate::aabb::axis_of(r.dir, a);
    let o = crate::aabb::axis_of(r.orig, a);
    let q = crate::vec3::fmul_s(t, d);
    if d == 0 {
        assert(t * 0 == 0) by (nonlinear_arith) {}
        assert(q == 0) by {
            vstd::arithmetic::div_mod::lemma_div_of0(s);
        }
    } else {
        vstd::arithmetic::div_mod::lemma_fundamental_div_mod(t * d, s);
        assert(s * q <= t * d <= s * q + s - 1);
        lemma_axis_dev(o, d, q, lo, hi, t, tn, td);
        assert(crate::aabb::strict_axis_witness(bx, r, tn, td, a)) by {
            assert((lo - crate::hittable::BOX_PAD) * td * s < o * td * s + tn * d);
            assert(o * td * s + tn * d < (hi + crate::hittable::BOX_PAD) * td * s);
        }
    }
}


/// As `lemma_sub_bounded_xyrect`, for the horizontal orientation.
pub proof fn lemma_sub_bounded_xzrect(x: crate::aarec::XZRect, t0: int, t1: int)
    requires
        x.wf(),
    ensures
        sub_bounded(Object::XZRect(x), t0, t1),
{
    let o = Object::XZRect(x);
    assert forall|r: Ray, tmin: int, tmax: int, sample: int|
        r.wf() && t_ok(tmin) && t_ok(tmax) && (#[trigger] crate::hittable::obj_hit_spec(
            o,
            r,
            tmin,
            tmax,
            sample,
        )) is Some implies match crate::hittable::guard_box(o, t0, t1) {
        Some(g) => crate::aabb::aabb_hit_spec(g, r, tmin, tmax),
        None => false,
    } by {
        let s = crate::SCALE as int;
        assert(crate::hittable::obj_hit_spec(o, r, tmin, tmax, sample) == x.hit_spec(
            r,
            tmin,
            tmax,
        ));
        let dy = r.dir.y as int;
        let oy = r.orig.y as int;
        let k = x.k as int;
        assert(dy != 0);
        let t = crate::aarec::plane_t(k, oy, dy);
        assert(tmin < t < tmax);
        let tn: int = if dy > 0 {
            s * (k - oy)
        } else {
            -(s * (k - oy))
        };
        let td: int = if dy > 0 {
            dy
        } else {
            -dy
        };
        assert(t == tn / td);
        vstd::arithmetic::div_mod::lemma_fundamental_div_mod(tn, td);
        assert(td * t <= tn <= td * t + td - 1);
        assert(tmin * td < tn && tn < tmax * td) by (nonlinear_arith)
            requires
                tmin < t,
                t < tmax,
                td > 0,
                td * t <= tn <= td * t + td - 1,
        {}
        let bx = crate::hittable::pad_box_spec(x.box_spec());
        assert(obj_box_spec(o, t0, t1) == Some(x.box_spec()));
        assert(crate::hittable::guard_box(o, t0, t1) == Some(bx));
        assert(crate::aabb::axis_of(bx.minimum, 0) == x.x0 - crate::hittable::BOX_PAD);
        assert(crate::aabb::axis_of(bx.maximum, 0) == x.x1 + crate::hittable::BOX_PAD);
        assert(crate::aabb::axis_of(bx.minimum, 1) == x.k - crate::aarec::FLAT_EPS
            - crate::hittable::BOX_PAD);
        assert(crate::aabb::axis_of(bx.maximum, 1) == x.k + crate::aarec::FLAT_EPS
            + crate::hittable::BOX_PAD);
        assert(crate::aabb::axis_of(bx.minimum, 2) == x.z0 - crate::hittable::BOX_PAD);
        assert(crate::aabb::axis_of(bx.maximum, 2) == x.z1 + crate::hittable::BOX_PAD);
        assert(crate::aabb::strict_axis_witness(bx, r, tn, td, 1)) by {
            assert(oy * td * s + tn * dy == k * td * s) by (nonlinear_arith)
                requires
                    (dy > 0 && tn == s * (k - oy) && td == dy) || (dy < 0 && tn == -(s * (k - oy))
                        && td == -dy),
            {}
            assert(crate::aabb::axis_of(bx.minimum, 1) < k && k < crate::aabb::axis_of(
                bx.maximum,
                1,
            ));
            assert(crate::aabb::axis_of(bx.minimum, 1) * td * s < k * td * s < crate::aabb::axis_of(
                bx.maximum,
                1,
            ) * td * s) by (nonlinear_arith)
                requires
                    crate::aabb::axis_of(bx.minimum, 1) < k < crate::aabb::axis_of(bx.maximum, 1),
                    td > 0,
                    s == 65536,
            {}
        }
        let xx = r.orig.x + crate::vec3::fmul_s(t, r.dir.x as int);
        let zz = r.orig.z + crate::vec3::fmul_s(t, r.dir.z as int);
        assert(x.x0 <= xx <= x.x1 && x.z0 <= zz <= x.z1);
        lemma_plane_axis_witness(bx, r, tn, td, 0, x.x0 as int, x.x1 as int, t);
        lemma_plane_axis_witness(bx, r, tn, td, 2, x.z0 as int, x.z1 as int, t);
        crate::aabb::lemma_witness_implies_hit(bx, r, tmin, tmax, tn, td);
    }
}

/// As `lemma_sub_bounded_xyrect`, for the sideways orientation.
pub proof fn lemma_sub_bounded_yzrect(x: crate::aarec::YZRect, t0: int, t1: int)
    requires
        x.wf(),
    ensures
        sub_bounded(Object::YZRect(x), t0, t1),
{
    let o = Object::YZRect(x);
    assert forall|r: Ray, tmin: int, tmax: int, sample: int|
        r.wf() && t_ok(tmin) && t_ok(tmax) && (#[trigger] crate::hittable::obj_hit_spec(
            o,
            r,
            tmin,
            tmax,
            sample,
        )) is Some implies match crate::hittable::guard_box(o, t0, t1) {
        Some(g) => crate::aabb::aabb_hit_spec(g, r, tmin, tmax),
        None => false,
    } by {
        let s = crate::SCALE as int;
        assert(crate::hittable::obj_hit_spec(o, r, tmin, tmax, sample) == x.hit_spec(
            r,
            tmin,
            tmax,
        ));
        let dx = r.dir.x as int;
        let ox = r.orig.x as int;
        let k = x.k as int;
        assert(dx != 0);
        let t = crate::aarec::plane_t(k, ox, dx);
        assert(tmin < t < tmax);
        let tn: int = if dx > 0 {
            s * (k - ox)
        } else {
            -(s * (k - ox))
        };
        let td: int = if dx > 0 {
            dx
        } else {
            -dx
        };
        assert(t == tn / td);
        vstd::arithmetic::div_mod::lemma_fundamental_div_mod(tn, td);
        assert(td * t <= tn <= td * t + td - 1);
        assert(tmin * td < tn && tn < tmax * td) by (nonlinear_arith)
            requires
                tmin < t,
                t < tmax,
                td > 0,
                td * t <= tn <= td * t + td - 1,
        {}
        let bx = crate::hittable::pad_box_spec(x.box_spec());
        assert(obj_box_spec(o, t0, t1) == Some(x.box_spec()));
        assert(crate::hittable::guard_box(o, t0, t1) == Some(bx));
        assert(crate::aabb::axis_of(bx.minimum, 0) == x.k - crate::aarec::FLAT_EPS
            - crate::hittable::BOX_PAD);
        assert(crate::aabb::axis_of(bx.maximum, 0) == x.k + crate::aarec::FLAT_EPS
            + crate::hittable::BOX_PAD);
        assert(crate::aabb::axis_of(bx.minimum, 1) == x.y0 - crate::hittable::BOX_PAD);
        assert(crate::aabb::axis_of(bx.maximum, 1) == x.y1 + crate::hittable::BOX_PAD);
        assert(crate::aabb::axis_of(bx.minimum, 2) == x.z0 - crate::hittable::BOX_PAD);
        assert(crate::aabb::axis_of(bx.maximum, 2) == x.z1 + crate::hittable::BOX_PAD);
        assert(crate::aabb::strict_axis_witness(bx, r, tn, td, 0)) by {
            assert(ox * td * s + tn * dx == k * td * s) by (nonlinear_arith)
                requires
                    (dx > 0 && tn == s * (k - ox) && td == dx) || (dx < 0 && tn == -(s * (k - ox))
                        && td == -dx),
            {}
            assert(crate::aabb::axis_of(bx.minimum, 0) < k && k < crate::aabb::axis_of(
                bx.maximum,
                0,
            ));
            assert(crate::aabb::axis_of(bx.minimum, 0) * td * s < k * td * s < crate::aabb::axis_of(
                bx.maximum,
                0,
            ) * td * s) by (nonlinear_arith)
                requires
                    crate::aabb::axis_of(bx.minimum, 0) < k < crate::aabb::axis_of(bx.maximum, 0),
                    td > 0,
                    s == 65536,
            {}
        }
        let yy = r.orig.y + crate::vec3::fmul_s(t, r.dir.y as int);
        let zz = r.orig.z + crate::vec3::fmul_s(t, r.dir.z as int);
        assert(x.y0 <= yy <= x.y1 && x.z0 <= zz <= x.z1);
        lemma_plane_axis_witness(bx, r, tn, td, 1, x.y0 as int, x.y1 as int, t);
        lemma_plane_axis_witness(bx, r, tn, td, 2, x.z0 as int, x.z1 as int, t);
        crate::aabb::lemma_witness_implies_hit(bx, r, tmin, tmax, tn, td);
    }
}

/// Scanning a concatenation is scanning the second part from the
/// first part's result.
proof fn lemma_scan_append(
    s1: Seq<Object>,
    s2: Seq<Object>,
    r: Ray,
    tmin: int,
    tmax: int,
    sample: int,
    prev: Option<HitRecord>,
    k: int,
)
    requires
        0 <= k <= s2.len(),
    ensures
        scan_from(s1 + s2, r, tmin, tmax, sample, prev, s1.len() + k) == scan_from(
            s2,
            r,
            tmin,
            tmax,
            sample,
            scan_from(s1, r, tmin, tmax, sample, prev, s1.len() as int),
            k,
        ),
    decreases k,
{
    if k == 0 {
        lemma_scan_prefix(s1, s2, r, tmin, tmax, sample, prev, s1.len() as int);
    } else {
        lemma_scan_append(s1, s2, r, tmin, tmax, sample, prev, k - 1);
        assert((s1 + s2)[s1.len() + k - 1] == s2[k - 1]);
    }
}

/// A scan over the first part of a concatenation ignores the rest.
proof fn lemma_scan_prefix(
    s1: Seq<Object>,
    s2: Seq<Object>,
    r: Ray,
    tmin: int,
    tmax: int,
    sample: int,
    prev: Option<HitRecord>,
    k: int,
)
    requires
        0 <= k <= s1.len(),
    ensures
        scan_from(s1 + s2, r, tmin, tmax, sample, prev, k) == scan_from(
            s1,
            r,
            tmin,
            tmax,
            sample,
            prev,
            k,
        ),
    decreases k,
{
    if k > 0 {
        lemma_scan_prefix(s1, s2, r, tmin, tmax, sample, prev, k - 1);
        assert((s1 + s2)[k - 1] == s1[k - 1]);
    }
}

/// Starting a scan from a best hit is the same as scanning with the
/// window capped at that hit and falling back to it on a miss.
proof fn lemma_scan_restart(
    s: Seq<Object>,
    r: Ray,
    tmin: int,
    tmax: int,
    sample: int,
    h: HitRecord,
    k: int,
)
    requires
        0 <= k <= s.len(),
    ensures
        scan_from(s, r, tmin, tmax, sample, Some(h), k) == (match scan_from(
            s,
            r,
            tmin,
            h.t as int,
            sample,
            None,
            k,
        ) {
            Some(g) => Some(g),
            None => Some(h),
        }),
    decreases k,
{
    if k > 0 {
        lemma_scan_restart(s, r, tmin, tmax, sample, h, k - 1);
    }
}

/// Under a failed node box test, every leaf of the subtree misses at
/// every window no wider than the query's, so the scan returns what it
/// started with.
proof fn lemma_subtree_scan_miss(
    o: Object,
    nbox: AABB,
    r: Ray,
    tmin: int,
    tmax: int,
    sample: int,
    t0: int,
    t1: int,
    prev: Option<HitRecord>,
)
    requires
        r.wf(),
        t_ok(tmin),
        t_ok(tmax),
        sub_bounded(o, t0, t1),
        bvh_covered(o, t0, t1),
        crate::hittable::guard_box(o, t0, t1) is Some,
        covers(nbox, crate::hittable::guard_box(o, t0, t1)->0),
        !crate::aabb::aabb_hit_spec(nbox, r, tmin, tmax),
        match prev {
            Some(h) => tmin <= h.t <= tmax,
            None => true,
        },
    ensures
        scan_from(bvh_leaves(o), r, tmin, tmax, sample, prev, bvh_leaves(o).len() as int) == prev,
    decreases o,
{
    match o {
        Object::Bvh(b) => {
            assert(covers(nbox, b.aabb_box));
            let gl = crate::hittable::guard_box(*b.left, t0, t1)->0;
            assert(covers(b.aabb_box, gl));
            assert(covers(nbox, gl));
            let lv_l = bvh_leaves(*b.left);
            match b.right {
                None => {
                    assert(bvh_leaves(o) =~= lv_l + Seq::<Object>::empty());
                    assert(lv_l + Seq::<Object>::empty() =~= lv_l);
                    lemma_subtree_scan_miss(*b.left, nbox, r, tmin, tmax, sample, t0, t1, prev);
                    assert(bvh_leaves(o) == bvh_leaves(*b.left) + Seq::<Object>::empty());
                    assert(scan_from(bvh_leaves(o), r, tmin, tmax, sample, prev, bvh_leaves(o).len() as int) == prev);
                },
                Some(rt) => {
                    let gr = crate::hittable::guard_box(*rt, t0, t1)->0;
                    assert(covers(b.aabb_box, gr));
                    assert(covers(nbox, gr));
                    let lv_r = bvh_leaves(*rt);
                    assert(bvh_leaves(o) == lv_l + lv_r);
                    lemma_scan_append(lv_l, lv_r, r, tmin, tmax, sample, prev, lv_r.len() as int);
                    lemma_subtree_scan_miss(*b.left, nbox, r, tmin, tmax, sample, t0, t1, prev);
                    lemma_subtree_scan_miss(*rt, nbox, r, tmin, tmax, sample, t0, t1, prev);
                    assert((lv_l + lv_r).len() == lv_l.len() + lv_r.len());
                    assert(scan_from(bvh_leaves(o), r, tmin, tmax, sample, prev, bvh_leaves(o).len() as int) == prev);
                },
            }
        },
        _ => {
            let lv = bvh_leaves(o);
            assert(lv =~= seq![o]);
            assert(lv[0] == o);
            assert(scan_from(lv, r, tmin, tmax, sample, prev, 0) == prev);
            let cur = match prev {
                Some(h) => h.t as int,
                None => tmax,
            };
            if crate::hittable::obj_hit_spec(o, r, tmin, cur, sample) is Some {
                let g = crate::hittable::guard_box(o, t0, t1)->0;
                assert(crate::aabb::aabb_hit_spec(g, r, tmin, cur));
                crate::aabb::lemma_covers_hit(g, nbox, r, tmin, cur);
                crate::aabb::lemma_hit_wider(nbox, r, tmin, cur, tmax);
                assert(false);
            }
        },
    }
}

/// The hierarchy is equivalent to the brute-force scan: for any ray,
/// window and flight sample, traversing a covered, leaf-bounded tree
/// reports exactly what the narrowing linear scan over its leaves
/// reports.
pub proof fn lemma_bvh_matches_scan(
    o: Object,
    r: Ray,
    tmin: int,
    tmax: int,
    sample: int,
    t0: int,
    t1: int,
)
    requires
        r.wf(),
        t_ok(tmin),
        t_ok(tmax),
        sample >= 0,
        sub_bounded(o, t0, t1),
        bvh_covered(o, t0, t1),
    ensures
        crate::hittable::obj_hit_spec(o, r, tmin, tmax, sample) == scan_from(
            bvh_leaves(o),
            r,
            tmin,
            tmax,
            sample,
            None,
            bvh_leaves(o).len() as int,
        ),
    decreases o,
{
    match o {
        Object::Bvh(b) => {
            let lv_l = bvh_leaves(*b.left);
            assert(crate::hittable::obj_hit_spec(o, r, tmin, tmax, sample)
                == crate::hittable::bvh_hit_spec(b, r, tmin, tmax, sample));
            if !crate::aabb::aabb_hit_spec(b.aabb_box, r, tmin, tmax) {
                match b.right {
                    None => {
                        assert(bvh_leaves(o) =~= lv_l);
                        assert(crate::hittable::guard_box(*b.left, t0, t1) is Some);
                        assert(covers(b.aabb_box, crate::hittable::guard_box(*b.left, t0, t1)->0));
                        lemma_subtree_scan_miss(
                            *b.left,
                            b.aabb_box,
                            r,
                            tmin,
                            tmax,
                            sample,
                            t0,
                            t1,
                            None,
                        );
                        assert(crate::hittable::obj_hit_spec(o, r, tmin, tmax, sample) == scan_from(
                bvh_leaves(o), r, tmin, tmax, sample, None, bvh_leaves(o).len() as int));
                    },
                    Some(rt) => {
                        let lv_r = bvh_leaves(*rt);
                        assert(bvh_leaves(o) == lv_l + lv_r);
                        lemma_scan_append(lv_l, lv_r, r, tmin, tmax, sample, None, lv_r.len() as int);
                        assert(crate::hittable::guard_box(*b.left, t0, t1) is Some);
                        assert(crate::hittable::guard_box(*rt, t0, t1) is Some);
                        assert(covers(b.aabb_box, crate::hittable::guard_box(*b.left, t0, t1)->0));
                        assert(covers(b.aabb_box, crate::hittable::guard_box(*rt, t0, t1)->0));
                        lemma_subtree_scan_miss(*b.left, b.aabb_box, r, tmin, tmax, sample, t0, t1, None);
                        lemma_subtree_scan_miss(*rt, b.aabb_box, r, tmin, tmax, sample, t0, t1, None);
                        assert(crate::hittable::obj_hit_spec(o, r, tmin, tmax, sample) == scan_from(
                bvh_leaves(o), r, tmin, tmax, sample, None, bvh_leaves(o).len() as int));
                    },
                }
            } else {
                let lh = crate::hittable::obj_hit_spec(*b.left, r, tmin, tmax, sample);
                lemma_bvh_matches_scan(*b.left, r, tmin, tmax, sample, t0, t1);
                match b.right {
                    None => {
                        assert(bvh_leaves(o) =~= lv_l);
                        assert(crate::hittable::obj_hit_spec(o, r, tmin, tmax, sample) == scan_from(
                bvh_leaves(o), r, tmin, tmax, sample, None, bvh_leaves(o).len() as int));
                    },
                    Some(rt) => {
                        let lv_r = bvh_leaves(*rt);
                        assert(bvh_leaves(o) == lv_l + lv_r);
                        lemma_scan_append(lv_l, lv_r, r, tmin, tmax, sample, None, lv_r.len() as int);
                        match lh {
                            None => {
                                lemma_bvh_matches_scan(*rt, r, tmin, tmax, sample, t0, t1);
                                assert(crate::hittable::obj_hit_spec(o, r, tmin, tmax, sample) == scan_from(
                bvh_leaves(o), r, tmin, tmax, sample, None, bvh_leaves(o).len() as int));
                            },
                            Some(h) => {
                                crate::hittable::lemma_hit_t_in_range(*b.left, r, tmin, tmax, sample);
                                lemma_bvh_matches_scan(*rt, r, tmin, h.t as int, sample, t0, t1);
                                lemma_scan_restart(lv_r, r, tmin, tmax, sample, h, lv_r.len() as int);
                                assert(crate::hittable::obj_hit_spec(o, r, tmin, tmax, sample) == scan_from(
                bvh_leaves(o), r, tmin, tmax, sample, None, bvh_leaves(o).len() as int));
                            },
                        }
                    },
                }
            }
        },
        _ => {
            assert(bvh_leaves(o) =~= seq![o]);
            assert(bvh_leaves(o)[0] == o);
            assert(scan_from(bvh_leaves(o), r, tmin, tmax, sample, None, 0) is None);
            assert(crate::hittable::obj_hit_spec(o, r, tmin, tmax, sample) == scan_from(
                bvh_leaves(o), r, tmin, tmax, sample, None, bvh_leaves(o).len() as int));
        },
    }
}

/// A flat list's narrowing scan is the reference scan over its
/// children.
proof fn lemma_list_is_scan(l: HittableList, r: Ray, tmin: int, tmax: int, sample: int, k: int)
    ensures
        crate::hittable::list_hit_spec(l, r, tmin, tmax, sample, k) == scan_from(
            l.objects@,
            r,
            tmin,
            tmax,
            sample,
            None,
            k,
        ),
    decreases k,
{
    if k > 0 {
        lemma_list_is_scan(l, r, tmin, tmax, sample, k - 1);
    }
}

/// Nearest-hit equivalence: for any ray, query window and flight
/// sample, a covered, leaf-bounded hierarchy reports exactly what a
/// flat list holding its leaves reports by brute-force scan.
pub proof fn lemma_bvh_matches_list(
    node: BvhNode,
    l: HittableList,
    r: Ray,
    tmin: int,
    tmax: int,
    sample: int,
    t0: int,
    t1: int,
)
    requires
        r.wf(),
        t_ok(tmin),
        t_ok(tmax),
        sample >= 0,
        sub_bounded(Object::Bvh(node), t0, t1),
        bvh_covered(Object::Bvh(node), t0, t1),
        l.objects@ == bvh_leaves(Object::Bvh(node)),
    ensures
        crate::hittable::obj_hit_spec(Object::Bvh(node), r, tmin, tmax, sample)
            == crate::hittable::list_hit_spec(l, r, tmin, tmax, sample, l.objects@.len() as int),
{
    lemma_bvh_matches_scan(Object::Bvh(node), r, tmin, tmax, sample, t0, t1);
    lemma_list_is_scan(l, r, tmin, tmax, sample, l.objects@.len() as int);
}

/// Window monotonicity: narrowing the upper end of the query window
/// keeps a hit that still fits and loses one that does not, and never
/// conjures a hit from nothing.  Plain surfaces behave this way;
/// constant-density media do not (their scatter depth depends on the
/// window), which is why they are no fit for nearest-hit reordering.
pub open spec fn mono(o: Object) -> bool {
    (forall|r: Ray, tmin: int, tmax: int, w: int, sample: int|
        #![trigger crate::hittable::obj_hit_spec(o, r, tmin, w, sample), crate::hittable::obj_hit_spec(o, r, tmin, tmax, sample)]
        w <= tmax && t_ok(tmin) && t_ok(tmax) && t_ok(w) ==> crate::hittable::obj_hit_spec(
            o,
            r,
            tmin,
            w,
            sample,
        ) == (match crate::hittable::obj_hit_spec(o, r, tmin, tmax, sample) {
            Some(h) => if h.t < w {
                Some(h)
            } else {
                None
            },
            None => None::<HitRecord>,
        })) && (forall|r: Ray, tmin: int, tmax: int, sample: int|
        t_ok(tmin) && t_ok(tmax) && (#[trigger] crate::hittable::obj_hit_spec(
            o,
            r,
            tmin,
            tmax,
            sample,
        )) is Some ==> tmin <= crate::hittable::obj_hit_spec(o, r, tmin, tmax, sample)->0.t
            <= tmax)
}

/// The full-window hit parameter of one entity.
pub open spec fn full_hit_t(o: Object, r: Ray, tmin: int, tmax: int, sample: int) -> Option<int> {
    match crate::hittable::obj_hit_spec(o, r, tmin, tmax, sample) {
        Some(h) => Some(h.t as int),
        None => None,
    }
}

/// The smallest full-window hit parameter among the first `k`
/// entities.
pub open spec fn min_hit_t(s: Seq<Object>, r: Ray, tmin: int, tmax: int, sample: int, k: int) -> Option<int>
    decreases k,
{
    if k <= 0 || k > s.len() {
        None
    } else {
        let p = min_hit_t(s, r, tmin, tmax, sample, k - 1);
        match (p, full_hit_t(s[k - 1], r, tmin, tmax, sample)) {
            (None, q) => q,
            (Some(a), None) => Some(a),
            (Some(a), Some(b)) => Some(
                if b <= a {
                    b
                } else {
                    a
                },
            ),
        }
    }
}

/// Nearest-hit law for the narrowing scan: over window-monotone
/// entities the scan reports a hit exactly when some entity hits the
/// full window, and the reported parameter is the smallest full-window
/// hit parameter among them, always inside the window.
pub proof fn lemma_scan_min(s: Seq<Object>, r: Ray, tmin: int, tmax: int, sample: int, k: int)
    requires
        t_ok(tmin),
        t_ok(tmax),
        sample >= 0,
        0 <= k <= s.len(),
        forall|i: int| 0 <= i < k ==> mono(#[trigger] s[i]),
    ensures
        match scan_from(s, r, tmin, tmax, sample, None, k) {
            Some(h) => min_hit_t(s, r, tmin, tmax, sample, k) == Some(h.t as int) && tmin <= h.t
                <= tmax,
            None => min_hit_t(s, r, tmin, tmax, sample, k) is None,
        },
    decreases k,
{
    if k > 0 {
        lemma_scan_min(s, r, tmin, tmax, sample, k - 1);
        let p = scan_from(s, r, tmin, tmax, sample, None, k - 1);
        let cur = match p {
            Some(h) => h.t as int,
            None => tmax,
        };
        assert(mono(s[k - 1]));
        assert(crate::hittable::obj_hit_spec(s[k - 1], r, tmin, cur, sample) == (
        match crate::hittable::obj_hit_spec(s[k - 1], r, tmin, tmax, sample) {
            Some(h) => if h.t < cur {
                Some(h)
            } else {
                None
            },
            None => None::<HitRecord>,
        }));
        if crate::hittable::obj_hit_spec(s[k - 1], r, tmin, tmax, sample) is Some {
            crate::hittable::lemma_hit_t_in_range(s[k - 1], r, tmin, tmax, sample);
        }
    }
}

/// A reported minimum comes from some entity, and bounds them all.
proof fn lemma_min_member(s: Seq<Object>, r: Ray, tmin: int, tmax: int, sample: int, k: int)
    requires
        0 <= k <= s.len(),
    ensures
        min_hit_t(s, r, tmin, tmax, sample, k) matches Some(m) ==> exists|i: int|
            0 <= i < k && full_hit_t(#[trigger] s[i], r, tmin, tmax, sample) == Some(m),
        forall|j: int|
            0 <= j < k && full_hit_t(#[trigger] s[j], r, tmin, tmax, sample) is Some ==> (
            min_hit_t(s, r, tmin, tmax, sample, k) matches Some(m) && m <= full_hit_t(
                s[j],
                r,
                tmin,
                tmax,
                sample,
            )->0),
        min_hit_t(s, r, tmin, tmax, sample, k) is None ==> forall|j: int|
            0 <= j < k ==> full_hit_t(#[trigger] s[j], r, tmin, tmax, sample) is None,
    decreases k,
{
    if k > 0 {
        lemma_min_member(s, r, tmin, tmax, sample, k - 1);
    }
}

/// Nearest-hit reordering: two arrangements of the same unordered set
/// of window-monotone entities agree on whether anything is hit and on
/// the nearest hit parameter.
pub proof fn lemma_scan_order_independent(
    s1: Seq<Object>,
    s2: Seq<Object>,
    r: Ray,
    tmin: int,
    tmax: int,
    sample: int,
)
    requires
        t_ok(tmin),
        t_ok(tmax),
        sample >= 0,
        s1.to_multiset() == s2.to_multiset(),
        forall|i: int| 0 <= i < s1.len() ==> mono(#[trigger] s1[i]),
        forall|i: int| 0 <= i < s2.len() ==> mono(#[trigger] s2[i]),
    ensures
        (scan_from(s1, r, tmin, tmax, sample, None, s1.len() as int) is Some) == (scan_from(
            s2,
            r,
            tmin,
            tmax,
            sample,
            None,
            s2.len() as int,
        ) is Some),
        scan_from(s1, r, tmin, tmax, sample, None, s1.len() as int) matches Some(h1)
            ==> scan_from(s2, r, tmin, tmax, sample, None, s2.len() as int) matches Some(h2)
            && h1.t == h2.t,
{
    lemma_scan_min(s1, r, tmin, tmax, sample, s1.len() as int);
    lemma_scan_min(s2, r, tmin, tmax, sample, s2.len() as int);
    lemma_min_member(s1, r, tmin, tmax, sample, s1.len() as int);
    lemma_min_member(s2, r, tmin, tmax, sample, s2.len() as int);
    lemma_min_transport(s1, s2, r, tmin, tmax, sample);
    lemma_min_transport(s2, s1, r, tmin, tmax, sample);
    let m1 = min_hit_t(s1, r, tmin, tmax, sample, s1.len() as int);
    let m2 = min_hit_t(s2, r, tmin, tmax, sample, s2.len() as int);
    if m1 is Some && m2 is Some {
        assert(m1->0 <= m2->0 && m2->0 <= m1->0);
    }
}

/// Any minimum of one arrangement bounds the other's.
proof fn lemma_min_transport(
    s1: Seq<Object>,
    s2: Seq<Object>,
    r: Ray,
    tmin: int,
    tmax: int,
    sample: int,
)
    requires
        s1.to_multiset() == s2.to_multiset(),
    ensures
        min_hit_t(s1, r, tmin, tmax, sample, s1.len() as int) matches Some(m) ==> min_hit_t(
            s2,
            r,
            tmin,
            tmax,
            sample,
            s2.len() as int,
        ) matches Some(m2) && m2 <= m,
{
    broadcast use vstd::seq_lib::group_to_multiset_ensures;

    let m1 = min_hit_t(s1, r, tmin, tmax, sample, s1.len() as int);
    if m1 is Some {
        lemma_min_member(s1, r, tmin, tmax, sample, s1.len() as int);
        lemma_min_member(s2, r, tmin, tmax, sample, s2.len() as int);
        let i = choose|i: int|
            0 <= i < s1.len() && full_hit_t(#[trigger] s1[i], r, tmin, tmax, sample) == Some(
                m1->0,
            );
        assert(s1.contains(s1[i]));
        assert(s1.to_multiset().count(s1[i]) > 0);
        assert(s2.to_multiset().count(s1[i]) > 0);
        assert(s2.contains(s1[i]));
        let j = choose|j: int| 0 <= j < s2.len() && s2[j] == s1[i];
        assert(full_hit_t(s2[j], r, tmin, tmax, sample) == Some(m1->0));
    }
}

/// Window monotonicity is a property of an entity's value, so it
/// carries across any rearrangement.
proof fn lemma_mono_transport(s1: Seq<Object>, s2: Seq<Object>)
    requires
        s1.to_multiset() == s2.to_multiset(),
        forall|i: int| 0 <= i < s1.len() ==> mono(#[trigger] s1[i]),
    ensures
        forall|i: int| 0 <= i < s2.len() ==> mono(#[trigger] s2[i]),
{
    broadcast use vstd::seq_lib::group_to_multiset_ensures;

    assert forall|i: int| 0 <= i < s2.len() implies mono(#[trigger] s2[i]) by {
        assert(s2.contains(s2[i]));
        assert(s2.to_multiset().count(s2[i]) > 0);
        assert(s1.to_multiset().count(s2[i]) > 0);
        assert(s1.contains(s2[i]));
        let j = choose|j: int| 0 <= j < s1.len() && s1[j] == s2[i];
        assert(mono(s1[j]));
    }
}

/// The full nearest-hit equivalence: for a fixed unordered set of
/// window-monotone entities, the hierarchy built over them and a flat
/// list holding them in any order agree, for every ray, window and
/// flight sample, on whether something is hit and on the nearest hit
/// parameter.
pub proof fn lemma_bvh_equivalent_to_any_order(
    node: BvhNode,
    l: HittableList,
    r: Ray,
    tmin: int,
    tmax: int,
    sample: int,
    t0: int,
    t1: int,
)
    requires
        r.wf(),
        t_ok(tmin),
        t_ok(tmax),
        sample >= 0,
        sub_bounded(Object::Bvh(node), t0, t1),
        bvh_covered(Object::Bvh(node), t0, t1),
        l.objects@.to_multiset() == bvh_leaves(Object::Bvh(node)).to_multiset(),
        forall|i: int| 0 <= i < l.objects@.len() ==> mono(#[trigger] l.objects@[i]),
    ensures
        (crate::hittable::obj_hit_spec(Object::Bvh(node), r, tmin, tmax, sample) is Some) == (
        crate::hittable::list_hit_spec(
            l,
            r,
            tmin,
            tmax,
            sample,
            l.objects@.len() as int,
        ) is Some),
        crate::hittable::obj_hit_spec(Object::Bvh(node), r, tmin, tmax, sample) matches Some(h1)
            ==> crate::hittable::list_hit_spec(l, r, tmin, tmax, sample, l.objects@.len() as int)
            matches Some(h2) && h1.t == h2.t,
{
    let leaves = bvh_leaves(Object::Bvh(node));
    lemma_bvh_matches_scan(Object::Bvh(node), r, tmin, tmax, sample, t0, t1);
    lemma_list_is_scan(l, r, tmin, tmax, sample, l.objects@.len() as int);
    lemma_mono_transport(l.objects@, leaves);
    lemma_scan_order_independent(leaves, l.objects@, r, tmin, tmax, sample);
}

/// Rectangles are window-monotone: they cross the ray at one fixed
/// parameter, which a narrower window either still admits or rejects.
pub proof fn lemma_mono_xyrect(x: crate::aarec::XYRect)
    ensures
        mono(Object::XYRect(x)),
{
    let o = Object::XYRect(x);
    assert forall|r: Ray, tmin: int, tmax: int, w: int, sample: int|
        w <= tmax && t_ok(tmin) && t_ok(tmax) && t_ok(w) implies crate::hittable::obj_hit_spec(
        o,
        r,
        tmin,
        w,
        sample,
    ) == (match crate::hittable::obj_hit_spec(o, r, tmin, tmax, sample) {
        Some(h) => if h.t < w {
            Some(h)
        } else {
            None
        },
        None => None::<HitRecord>,
    }) by {
        assert(crate::hittable::obj_hit_spec(o, r, tmin, w, sample) == x.hit_spec(r, tmin, w));
        assert(crate::hittable::obj_hit_spec(o, r, tmin, tmax, sample) == x.hit_spec(r, tmin, tmax));
    }
}

/// As `lemma_mono_xyrect`, for the other two orientations.
pub proof fn lemma_mono_xzrect(x: crate::aarec::XZRect)
    ensures
        mono(Object::XZRect(x)),
{
    let o = Object::XZRect(x);
    assert forall|r: Ray, tmin: int, tmax: int, w: int, sample: int|
        w <= tmax && t_ok(tmin) && t_ok(tmax) && t_ok(w) implies crate::hittable::obj_hit_spec(
        o,
        r,
        tmin,
        w,
        sample,
    ) == (match crate::hittable::obj_hit_spec(o, r, tmin, tmax, sample) {
        Some(h) => if h.t < w {
            Some(h)
        } else {
            None
        },
        None => None::<HitRecord>,
    }) by {
        assert(crate::hittable::obj_hit_spec(o, r, tmin, w, sample) == x.hit_spec(r, tmin, w));
        assert(crate::hittable::obj_hit_spec(o, r, tmin, tmax, sample) == x.hit_spec(r, tmin, tmax));
    }
}

pub proof fn lemma_mono_yzrect(x: crate::aarec::YZRect)
    ensures
        mono(Object::YZRect(x)),
{
    let o = Object::YZRect(x);
    assert forall|r: Ray, tmin: int, tmax: int, w: int, sample: int|
        w <= tmax && t_ok(tmin) && t_ok(tmax) && t_ok(w) implies crate::hittable::obj_hit_spec(
        o,
        r,
        tmin,
        w,
        sample,
    ) == (match crate::hittable::obj_hit_spec(o, r, tmin, tmax, sample) {
        Some(h) => if h.t < w {
            Some(h)
        } else {
            None
        },
        None => None::<HitRecord>,
    }) by {
        assert(crate::hittable::obj_hit_spec(o, r, tmin, w, sample) == x.hit_spec(r, tmin, w));
        assert(crate::hittable::obj_hit_spec(o, r, tmin, tmax, sample) == x.hit_spec(r, tmin, tmax));
    }
}

/// A translation of a window-monotone entity is window-monotone: the
/// wrapper only shifts frames and leaves the hit parameter alone.
pub proof fn lemma_mono_translate(t: crate::hittable::Translate)
    requires
        mono(*t.ptr),
    ensures
        mono(Object::Translate(t)),
{
    let o = Object::Translate(t);
    assert forall|r: Ray, tmin: int, tmax: int, w: int, sample: int|
        w <= tmax && t_ok(tmin) && t_ok(tmax) && t_ok(w) implies crate::hittable::obj_hit_spec(
        o,
        r,
        tmin,
        w,
        sample,
    ) == (match crate::hittable::obj_hit_spec(o, r, tmin, tmax, sample) {
        Some(h) => if h.t < w {
            Some(h)
        } else {
            None
        },
        None => None::<HitRecord>,
    }) by {
        assert(crate::hittable::obj_hit_spec(o, r, tmin, w, sample)
            == crate::hittable::translate_hit_spec(t, r, tmin, w, sample));
        assert(crate::hittable::obj_hit_spec(o, r, tmin, tmax, sample)
            == crate::hittable::translate_hit_spec(t, r, tmin, tmax, sample));
        let o2 = crate::hittable::shifted_origin(r, t.offset);
        if crate::vec3::coord_ok(o2.x as int) && crate::vec3::coord_ok(o2.y as int)
            && crate::vec3::coord_ok(o2.z as int) {
            let moved = Ray { orig: o2, dir: r.dir, tm: r.tm };
            assert(crate::hittable::obj_hit_spec(*t.ptr, moved, tmin, w, sample) == (
            match crate::hittable::obj_hit_spec(*t.ptr, moved, tmin, tmax, sample) {
                Some(h) => if h.t < w {
                    Some(h)
                } else {
                    None
                },
                None => None::<HitRecord>,
            }));
        }
    }
    assert forall|r: Ray, tmin: int, tmax: int, sample: int|
        t_ok(tmin) && t_ok(tmax) && (#[trigger] crate::hittable::obj_hit_spec(
            o,
            r,
            tmin,
            tmax,
            sample,
        )) is Some implies tmin <= crate::hittable::obj_hit_spec(o, r, tmin, tmax, sample)->0.t
        <= tmax by {
        assert(crate::hittable::obj_hit_spec(o, r, tmin, tmax, sample)
            == crate::hittable::translate_hit_spec(t, r, tmin, tmax, sample));
        let o2 = crate::hittable::shifted_origin(r, t.offset);
        if crate::vec3::coord_ok(o2.x as int) && crate::vec3::coord_ok(o2.y as int)
            && crate::vec3::coord_ok(o2.z as int) {
            let moved = Ray { orig: o2, dir: r.dir, tm: r.tm };
            assert(crate::hittable::obj_hit_spec(*t.ptr, moved, tmin, tmax, sample) is Some);
        }
    }
}

/// A rotation of a window-monotone entity is window-monotone, for the
/// same reason.
pub proof fn lemma_mono_rotate(ry: crate::hittable::RotateY)
    requires
        mono(*ry.ptr),
    ensures
        mono(Object::RotateY(ry)),
{
    let o = Object::RotateY(ry);
    assert forall|r: Ray, tmin: int, tmax: int, w: int, sample: int|
        w <= tmax && t_ok(tmin) && t_ok(tmax) && t_ok(w) implies crate::hittable::obj_hit_spec(
        o,
        r,
        tmin,
        w,
        sample,
    ) == (match crate::hittable::obj_hit_spec(o, r, tmin, tmax, sample) {
        Some(h) => if h.t < w {
            Some(h)
        } else {
            None
        },
        None => None::<HitRecord>,
    }) by {
        assert(crate::hittable::obj_hit_spec(o, r, tmin, w, sample)
            == crate::hittable::rotate_hit_spec(ry, r, tmin, w, sample));
        assert(crate::hittable::obj_hit_spec(o, r, tmin, tmax, sample)
            == crate::hittable::rotate_hit_spec(ry, r, tmin, tmax, sample));
        let (ox, oz) = crate::hittable::rot_xz(
            ry.cos_theta as int,
            -(ry.sin_theta as int),
            r.orig.x as int,
            r.orig.z as int,
        );
        let (dx, dz) = crate::hittable::rot_xz(
            ry.cos_theta as int,
            -(ry.sin_theta as int),
            r.dir.x as int,
            r.dir.z as int,
        );
        if crate::vec3::coord_ok(ox) && crate::vec3::coord_ok(oz) && crate::vec3::coord_ok(dx)
            && crate::vec3::coord_ok(dz) {
            let rotated = Ray {
                orig: crate::vec3::Vec3 { x: ox as i64, y: r.orig.y, z: oz as i64 },
                dir: crate::vec3::Vec3 { x: dx as i64, y: r.dir.y, z: dz as i64 },
                tm: r.tm,
            };
            assert(crate::hittable::obj_hit_spec(*ry.ptr, rotated, tmin, w, sample) == (
            match crate::hittable::obj_hit_spec(*ry.ptr, rotated, tmin, tmax, sample) {
                Some(h) => if h.t < w {
                    Some(h)
                } else {
                    None
                },
                None => None::<HitRecord>,
            }));
        }
    }
    assert forall|r: Ray, tmin: int, tmax: int, sample: int|
        t_ok(tmin) && t_ok(tmax) && (#[trigger] crate::hittable::obj_hit_spec(
            o,
            r,
            tmin,
            tmax,
            sample,
        )) is Some implies tmin <= crate::hittable::obj_hit_spec(o, r, tmin, tmax, sample)->0.t
        <= tmax by {
        assert(crate::hittable::obj_hit_spec(o, r, tmin, tmax, sample)
            == crate::hittable::rotate_hit_spec(ry, r, tmin, tmax, sample));
        let (ox, oz) = crate::hittable::rot_xz(
            ry.cos_theta as int,
            -(ry.sin_theta as int),
            r.orig.x as int,
            r.orig.z as int,
        );
        let (dx, dz) = crate::hittable::rot_xz(
            ry.cos_theta as int,
            -(ry.sin_theta as int),
            r.dir.x as int,
            r.dir.z as int,
        );
        if crate::vec3::coord_ok(ox) && crate::vec3::coord_ok(oz) && crate::vec3::coord_ok(dx)
            && crate::vec3::coord_ok(dz) {
            let rotated = Ray {
                orig: crate::vec3::Vec3 { x: ox as i64, y: r.orig.y, z: oz as i64 },
                dir: crate::vec3::Vec3 { x: dx as i64, y: r.dir.y, z: dz as i64 },
                tm: r.tm,
            };
            assert(crate::hittable::obj_hit_spec(*ry.ptr, rotated, tmin, tmax, sample) is Some);
        }
    }
}

/// A scan over window-monotone entities stays inside the window.
proof fn lemma_scan_range(s: Seq<Object>, r: Ray, tmin: int, tmax: int, sample: int, k: int)
    requires
        t_ok(tmin),
        t_ok(tmax),
        0 <= k <= s.len(),
        forall|i: int| 0 <= i < k ==> mono(#[trigger] s[i]),
    ensures
        scan_from(s, r, tmin, tmax, sample, None, k) matches Some(h) ==> tmin <= h.t <= tmax,
    decreases k,
{
    if k > 0 {
        lemma_scan_range(s, r, tmin, tmax, sample, k - 1);
        let p = scan_from(s, r, tmin, tmax, sample, None, k - 1);
        let cur = match p {
            Some(h) => h.t as int,
            None => tmax,
        };
        assert(mono(s[k - 1]));
        if crate::hittable::obj_hit_spec(s[k - 1], r, tmin, cur, sample) is Some {
            assert(tmin <= crate::hittable::obj_hit_spec(s[k - 1], r, tmin, cur, sample)->0.t
                <= cur);
        }
    }
}

/// Narrowing the window commutes with the whole scan when every entity
/// is window-monotone.
proof fn lemma_scan_narrow(
    s: Seq<Object>,
    r: Ray,
    tmin: int,
    tmax: int,
    w: int,
    sample: int,
    k: int,
)
    requires
        w <= tmax,
        t_ok(tmin),
        t_ok(tmax),
        t_ok(w),
        0 <= k <= s.len(),
        forall|i: int| 0 <= i < k ==> mono(#[trigger] s[i]),
    ensures
        scan_from(s, r, tmin, w, sample, None, k) == (match scan_from(
            s,
            r,
            tmin,
            tmax,
            sample,
            None,
            k,
        ) {
            Some(h) => if h.t < w {
                Some(h)
            } else {
                None
            },
            None => None::<HitRecord>,
        }),
    decreases k,
{
    if k > 0 {
        lemma_scan_narrow(s, r, tmin, tmax, w, sample, k - 1);
        lemma_scan_range(s, r, tmin, tmax, sample, k - 1);
        lemma_scan_range(s, r, tmin, w, sample, k - 1);
        let e = s[k - 1];
        assert(mono(e));
        let p_full = scan_from(s, r, tmin, tmax, sample, None, k - 1);
        let p_w = scan_from(s, r, tmin, w, sample, None, k - 1);
        let cur_full = match p_full {
            Some(h) => h.t as int,
            None => tmax,
        };
        let cur_w = match p_w {
            Some(h) => h.t as int,
            None => w,
        };
        let e_full = crate::hittable::obj_hit_spec(e, r, tmin, tmax, sample);
        assert(crate::hittable::obj_hit_spec(e, r, tmin, cur_full, sample) == (match e_full {
            Some(h) => if h.t < cur_full {
                Some(h)
            } else {
                None
            },
            None => None::<HitRecord>,
        }));
        assert(crate::hittable::obj_hit_spec(e, r, tmin, cur_w, sample) == (match e_full {
            Some(h) => if h.t < cur_w {
                Some(h)
            } else {
                None
            },
            None => None::<HitRecord>,
        }));
    }
}

/// A flat union of window-monotone entities is window-monotone.
pub proof fn lemma_mono_list(l: HittableList)
    requires
        forall|i: int| 0 <= i < l.objects@.len() ==> mono(#[trigger] l.objects@[i]),
    ensures
        mono(Object::List(l)),
{
    let o = Object::List(l);
    let n = l.objects@.len() as int;
    assert forall|r: Ray, tmin: int, tmax: int, w: int, sample: int|
        w <= tmax && t_ok(tmin) && t_ok(tmax) && t_ok(w) implies crate::hittable::obj_hit_spec(
        o,
        r,
        tmin,
        w,
        sample,
    ) == (match crate::hittable::obj_hit_spec(o, r, tmin, tmax, sample) {
        Some(h) => if h.t < w {
            Some(h)
        } else {
            None
        },
        None => None::<HitRecord>,
    }) by {
        lemma_list_is_scan(l, r, tmin, w, sample, n);
        lemma_list_is_scan(l, r, tmin, tmax, sample, n);
        lemma_scan_narrow(l.objects@, r, tmin, tmax, w, sample, n);
    }
    assert forall|r: Ray, tmin: int, tmax: int, sample: int|
        t_ok(tmin) && t_ok(tmax) && (#[trigger] crate::hittable::obj_hit_spec(
            o,
            r,
            tmin,
            tmax,
            sample,
        )) is Some implies tmin <= crate::hittable::obj_hit_spec(o, r, tmin, tmax, sample)->0.t
        <= tmax by {
        lemma_list_is_scan(l, r, tmin, tmax, sample, n);
        lemma_scan_range(l.objects@, r, tmin, tmax, sample, n);
    }
}

/// A box of window-monotone faces is window-monotone.
pub proof fn lemma_mono_cube(c: crate::cube::Cube)
    requires
        forall|i: int| 0 <= i < c.sides.objects@.len() ==> mono(#[trigger] c.sides.objects@[i]),
    ensures
        mono(Object::Cube(c)),
{
    let o = Object::Cube(c);
    let n = c.sides.objects@.len() as int;
    assert forall|r: Ray, tmin: int, tmax: int, w: int, sample: int|
        w <= tmax && t_ok(tmin) && t_ok(tmax) && t_ok(w) implies crate::hittable::obj_hit_spec(
        o,
        r,
        tmin,
        w,
        sample,
    ) == (match crate::hittable::obj_hit_spec(o, r, tmin, tmax, sample) {
        Some(h) => if h.t < w {
            Some(h)
        } else {
            None
        },
        None => None::<HitRecord>,
    }) by {
        lemma_list_is_scan(c.sides, r, tmin, w, sample, n);
        lemma_list_is_scan(c.sides, r, tmin, tmax, sample, n);
        lemma_scan_narrow(c.sides.objects@, r, tmin, tmax, w, sample, n);
    }
    assert forall|r: Ray, tmin: int, tmax: int, sample: int|
        t_ok(tmin) && t_ok(tmax) && (#[trigger] crate::hittable::obj_hit_spec(
            o,
            r,
            tmin,
            tmax,
            sample,
        )) is Some implies tmin <= crate::hittable::obj_hit_spec(o, r, tmin, tmax, sample)->0.t
        <= tmax by {
        lemma_list_is_scan(c.sides, r, tmin, tmax, sample, n);
        lemma_scan_range(c.sides.objects@, r, tmin, tmax, sample, n);
    }
}

/// A syntactic check that an entity is built only from window-monotone
/// pieces: surfaces, their unions and their rigid transforms.
/// Constant-density media (their scatter depth depends on the window)
/// and embedded hierarchy nodes are excluded.
pub open spec fn mono_tree(o: Object) -> bool
    decreases o, 1int, 0int,
{
    match o {
        Object::Sphere(_) => true,
        Object::MovingSphere(_) => true,
        Object::XYRect(_) => true,
        Object::XZRect(_) => true,
        Object::YZRect(_) => true,
        Object::Cube(c) => mono_tree_list(c.sides),
        Object::List(l) => mono_tree_list(l),
        Object::Translate(t) => mono_tree(*t.ptr),
        Object::RotateY(ry) => mono_tree(*ry.ptr),
        Object::ConstantMedium(_) => false,
        Object::Bvh(_) => false,
    }
}

pub open spec fn mono_tree_list(l: HittableList) -> bool
    decreases l, 0int, 0int,
{
    forall|i: int| 0 <= i < l.objects@.len() ==> mono_tree(#[trigger] l.objects@[i])
}

/// Everything the syntactic check admits really is window-monotone.
pub proof fn lemma_mono_tree(o: Object)
    requires
        mono_tree(o),
    ensures
        mono(o),
    decreases o, 1int, 0int,
{
    match o {
        Object::Sphere(s) => lemma_mono_sphere(s),
        Object::MovingSphere(m) => lemma_mono_moving_sphere(m),
        Object::XYRect(x) => lemma_mono_xyrect(x),
        Object::XZRect(x) => lemma_mono_xzrect(x),
        Object::YZRect(x) => lemma_mono_yzrect(x),
        Object::Cube(c) => {
            assert forall|i: int| 0 <= i < c.sides.objects@.len() implies mono(
                #[trigger] c.sides.objects@[i],
            ) by {
                assert(mono_tree_list(c.sides));
                assert(mono_tree(c.sides.objects@[i]));
                lemma_mono_tree(c.sides.objects@[i]);
            }
            lemma_mono_cube(c);
        },
        Object::List(l) => {
            assert forall|i: int| 0 <= i < l.objects@.len() implies mono(
                #[trigger] l.objects@[i],
            ) by {
                assert(mono_tree_list(l));
                assert(mono_tree(l.objects@[i]));
                lemma_mono_tree(l.objects@[i]);
            }
            lemma_mono_list(l);
        },
        Object::Translate(t) => {
            lemma_mono_tree(*t.ptr);
            lemma_mono_translate(t);
        },
        Object::RotateY(ry) => {
            lemma_mono_tree(*ry.ptr);
            lemma_mono_rotate(ry);
        },
        Object::ConstantMedium(_) => {},
        Object::Bvh(_) => {},
    }
}

/// Spheres are window-monotone: the two grid roots are ordered, the
/// nearer one wins when admitted, and narrowing the window can only
/// reject roots, never change them.
pub proof fn lemma_mono_sphere(s: crate::sphere::Sphere)
    ensures
        mono(Object::Sphere(s)),
{
    let o = Object::Sphere(s);
    assert forall|r: Ray, tmin: int, tmax: int, w: int, sample: int|
        w <= tmax && t_ok(tmin) && t_ok(tmax) && t_ok(w) implies crate::hittable::obj_hit_spec(
        o,
        r,
        tmin,
        w,
        sample,
    ) == (match crate::hittable::obj_hit_spec(o, r, tmin, tmax, sample) {
        Some(h) => if h.t < w {
            Some(h)
        } else {
            None
        },
        None => None::<HitRecord>,
    }) by {
        assert(crate::hittable::obj_hit_spec(o, r, tmin, w, sample)
            == crate::sphere::sphere_hit_spec(s, r, tmin, w));
        assert(crate::hittable::obj_hit_spec(o, r, tmin, tmax, sample)
            == crate::sphere::sphere_hit_spec(s, r, tmin, tmax));
        if !(crate::sphere::sph_a(s, r) == 0 || crate::sphere::sph_disc(s, r) < 0) {
            lemma_sphere_roots_ordered(s, r);
        }
    }
}

/// A moving sphere is window-monotone: the shutter time fixes the
/// centre, and the rest is ordinary sphere intersection.
pub proof fn lemma_mono_moving_sphere(m: crate::moving_sphere::MovingSphere)
    ensures
        mono(Object::MovingSphere(m)),
{
    let o = Object::MovingSphere(m);
    assert forall|r: Ray, tmin: int, tmax: int, w: int, sample: int|
        w <= tmax && t_ok(tmin) && t_ok(tmax) && t_ok(w) implies crate::hittable::obj_hit_spec(
        o,
        r,
        tmin,
        w,
        sample,
    ) == (match crate::hittable::obj_hit_spec(o, r, tmin, tmax, sample) {
        Some(h) => if h.t < w {
            Some(h)
        } else {
            None
        },
        None => None::<HitRecord>,
    }) by {
        let s = crate::moving_sphere::sphere_at_spec(m, r.tm as int);
        assert(crate::hittable::obj_hit_spec(o, r, tmin, w, sample)
            == crate::sphere::sphere_hit_spec(s, r, tmin, w));
        assert(crate::hittable::obj_hit_spec(o, r, tmin, tmax, sample)
            == crate::sphere::sphere_hit_spec(s, r, tmin, tmax));
        if !(crate::sphere::sph_a(s, r) == 0 || crate::sphere::sph_disc(s, r) < 0) {
            lemma_sphere_roots_ordered(s, r);
        }
    }
}

/// The nearer grid root never exceeds the farther one.
proof fn lemma_sphere_roots_ordered(s: crate::sphere::Sphere, r: Ray)
    requires
        crate::sphere::sph_a(s, r) != 0,
        crate::sphere::sph_disc(s, r) >= 0,
    ensures
        crate::sphere::sph_root(s, r, -1) <= crate::sphere::sph_root(s, r, 1),
{
    let a = crate::sphere::sph_a(s, r);
    let hb = crate::sphere::sph_half_b(s, r);
    let sq = crate::fixed::isqrt_spec(crate::sphere::sph_disc(s, r));
    assert(a >= 0) by (nonlinear_arith)
        requires
            a == r.dir.x * r.dir.x + r.dir.y * r.dir.y + r.dir.z * r.dir.z,
    {}
    crate::fixed::lemma_isqrt_exists(crate::sphere::sph_disc(s, r));
    assert(sq >= 0);
    assert((-hb + (-1) * sq) * (crate::SCALE as int) <= (-hb + 1 * sq) * (crate::SCALE as int))
        by (nonlinear_arith)
        requires
            sq >= 0,
    {}
    vstd::arithmetic::div_mod::lemma_div_is_ordered(
        (-hb + (-1) * sq) * (crate::SCALE as int),
        (-hb + 1 * sq) * (crate::SCALE as int),
        a,
    );
}

/// The exec mirror of `box_key`; the entity must have a box.
fn box_key_exec(o: &Object, axis: i32) -> (k: i64)
    requires
        obj_wf(*o),
        obj_box_spec(*o, 0, 0) is Some,
    ensures
        k as int == box_key(*o, axis as int),
{
    match o.bounding_box(0, 0) {
        Some(b) => {
            if axis == 0 {
                b.minimum.x
            } else if axis == 1 {
                b.minimum.y
            } else {
                b.minimum.z
            }
        },
        None => {
            proof {
                assert(false);
            }
            0
        },
    }
}

/// Stable selection ordering by box minimum on the chosen axis:
/// repeatedly move the first minimal-key entity over.  Fails if some
/// entity has no bounding box.
fn sort_by_axis(objects: Vec<Object>, axis: i32) -> (res: Result<Vec<Object>, BuildError>)
    requires
        seq_wf(objects@),
        forall|i: int| 0 <= i < objects@.len() ==> !(#[trigger] objects@[i] is Bvh),
    ensures
        (forall|i: int| 0 <= i < objects@.len() ==> obj_box_spec(#[trigger] objects@[i], 0, 0)
            is Some) ==> res is Ok,
        res matches Ok(s) ==> s@.to_multiset() == objects@.to_multiset() && s@.len()
            == objects@.len() && seq_wf(s@) && (forall|i: int|
            0 <= i < s@.len() ==> !(#[trigger] s@[i] is Bvh)) && (forall|i: int, j: int|
            0 <= i < j < s@.len() ==> box_key(#[trigger] s@[i], axis as int) <= box_key(
                #[trigger] s@[j],
                axis as int,
            )) && (forall|i: int|
            0 <= i < s@.len() ==> obj_box_spec(#[trigger] s@[i], 0, 0) is Some),
{
    let ghost orig = objects@;
    let mut rest = objects;
    let mut k: usize = 0;
    while k < rest.len()
        invariant
            seq_wf(rest@),
            rest@ == orig,
            orig == objects@,
            k <= rest@.len(),
            forall|i: int| 0 <= i < k ==> obj_box_spec(#[trigger] rest@[i], 0, 0) is Some,
        decreases rest@.len() - k,
    {
        proof {
            assert(obj_wf(rest@[k as int]));
        }
        match rest[k].bounding_box(0, 0) {
            None => {
                proof {
                    assert(objects@[k as int] == rest@[k as int]);
                    assert(obj_box_spec(objects@[k as int], 0, 0) is None);
                }
                return Err(BuildError::NoBoundingBox);
            },
            Some(_) => {},
        }
        k = k + 1;
    }
    let mut out: Vec<Object> = Vec::new();
    while rest.len() > 0
        invariant
            seq_wf(rest@),
            seq_wf(out@),
            forall|i: int| 0 <= i < rest@.len() ==> !(#[trigger] rest@[i] is Bvh),
            forall|i: int| 0 <= i < out@.len() ==> !(#[trigger] out@[i] is Bvh),
            out@.to_multiset().add(rest@.to_multiset()) == orig.to_multiset(),
            out@.len() + rest@.len() == orig.len(),
            forall|i: int| 0 <= i < rest@.len() ==> obj_box_spec(#[trigger] rest@[i], 0, 0) is Some,
            forall|i: int| 0 <= i < out@.len() ==> obj_box_spec(#[trigger] out@[i], 0, 0) is Some,
            forall|i: int, j: int|
                0 <= i < j < out@.len() ==> box_key(#[trigger] out@[i], axis as int) <= box_key(
                    #[trigger] out@[j],
                    axis as int,
                ),
            forall|i: int, j: int|
                0 <= i < out@.len() && 0 <= j < rest@.len() ==> box_key(
                    #[trigger] out@[i],
                    axis as int,
                ) <= box_key(#[trigger] rest@[j], axis as int),
        decreases rest@.len(),
    {
        let mut mi: usize = 0;
        let mut mk = box_key_exec(&rest[0], axis);
        let mut j: usize = 1;
        while j < rest.len()
            invariant
                seq_wf(rest@),
                rest@.len() > 0,
                mi < j,
                j <= rest@.len(),
                forall|i: int|
                    0 <= i < rest@.len() ==> obj_box_spec(#[trigger] rest@[i], 0, 0) is Some,
                mk as int == box_key(rest@[mi as int], axis as int),
                forall|i: int| 0 <= i < j ==> mk as int <= box_key(#[trigger] rest@[i], axis as int),
            decreases rest@.len() - j,
        {
            let kj = box_key_exec(&rest[j], axis);
            if kj < mk {
                mi = j;
                mk = kj;
            }
            j = j + 1;
        }
        let picked = rest.remove(mi);
        out.push(picked);
        proof {
            assert(out@.to_multiset().add(rest@.to_multiset()) =~= orig.to_multiset());
        }
    }
    proof {
        assert(out@.to_multiset() =~= orig.to_multiset()) by {
            assert(rest@.to_multiset() =~= Multiset::empty());
            assert(out@.to_multiset().add(rest@.to_multiset()) == orig.to_multiset());
        }
        assert(out@.len() == orig.len()) by {
            assert(out@.to_multiset().len() == orig.to_multiset().len());
        }
    }
    Ok(out)
}

} // verus!
