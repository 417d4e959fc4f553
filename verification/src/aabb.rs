//! Axis-aligned bounding boxes with an exact slab intersection test.
//!
//! A ray parameter `t` is a fixed-point scalar, so every slab boundary
//! is the rational `SCALE * (bound - origin) / direction`.  The test
//! compares those rationals exactly by cross-multiplication; no
//! division, and therefore no rounding, is involved.

use vstd::prelude::*;

verus! {

use crate::SCALE;
use crate::ray::Ray;
use crate::vec3::{Vec3, t_ok};

#[derive(Clone, Copy, PartialEq, Eq, Structural, Debug)]
pub struct AABB {
    pub minimum: Vec3,
    pub maximum: Vec3,
}

/// Component `a` of a vector, for axis-indexed statements.
pub open spec fn axis_of(v: Vec3, a: int) -> int {
    if a == 0 {
        v.x as int
    } else if a == 1 {
        v.y as int
    } else {
        v.z as int
    }
}

/// `p1/q1 < p2/q2` for positive denominators.
pub open spec fn rat_lt(p1: int, q1: int, p2: int, q2: int) -> bool {
    p1 * q2 < p2 * q1
}

/// `p1/q1 <= p2/q2` for positive denominators.
pub open spec fn rat_le(p1: int, q1: int, p2: int, q2: int) -> bool {
    p1 * q2 <= p2 * q1
}

/// Numerator of the `a`-th lower slab bound; index 3 stands for the
/// queried interval itself, as does any axis the ray runs parallel to.
pub open spec fn lo_n(b: AABB, r: Ray, tmin: int, a: int) -> int {
    if 0 <= a < 3 && axis_of(r.dir, a) != 0 {
        if axis_of(r.dir, a) > 0 {
            (SCALE as int) * (axis_of(b.minimum, a) - axis_of(r.orig, a))
        } else {
            (SCALE as int) * (axis_of(r.orig, a) - axis_of(b.maximum, a))
        }
    } else {
        tmin
    }
}

/// Numerator of the `a`-th upper slab bound.
pub open spec fn hi_n(b: AABB, r: Ray, tmax: int, a: int) -> int {
    if 0 <= a < 3 && axis_of(r.dir, a) != 0 {
        if axis_of(r.dir, a) > 0 {
            (SCALE as int) * (axis_of(b.maximum, a) - axis_of(r.orig, a))
        } else {
            (SCALE as int) * (axis_of(r.orig, a) - axis_of(b.minimum, a))
        }
    } else {
        tmax
    }
}

/// Shared positive denominator of the `a`-th slab bounds.
pub open spec fn den_of(r: Ray, a: int) -> int {
    if 0 <= a < 3 && axis_of(r.dir, a) != 0 {
        if axis_of(r.dir, a) > 0 {
            axis_of(r.dir, a)
        } else {
            -axis_of(r.dir, a)
        }
    } else {
        1
    }
}

/// The reference slab test: every axis the ray runs parallel to must
/// contain the origin, and every lower bound (including `tmin`) must
/// lie strictly below every upper bound (including `tmax`).
pub open spec fn aabb_hit_spec(b: AABB, r: Ray, tmin: int, tmax: int) -> bool {
    (forall|a: int|
        0 <= a < 3 && axis_of(r.dir, a) == 0 ==> axis_of(b.minimum, a) <= axis_of(r.orig, a)
            <= axis_of(b.maximum, a)) && (forall|i: int, j: int|
        0 <= i < 4 && 0 <= j < 4 ==> rat_lt(
            #[trigger] lo_n(b, r, tmin, i),
            den_of(r, i),
            #[trigger] hi_n(b, r, tmax, j),
            den_of(r, j),
        ))
}

/// From `a/b <= c/d` and `c/d < e/f` conclude `a/b < e/f`.
pub proof fn lemma_rat_le_lt_trans(a: int, b: int, c: int, d: int, e: int, f: int)
    requires
        b > 0,
        d > 0,
        f > 0,
        rat_le(a, b, c, d),
        rat_lt(c, d, e, f),
    ensures
        rat_lt(a, b, e, f),
{
    assert(a * f * d < e * b * d) by (nonlinear_arith)
        requires
            b > 0,
            d > 0,
            f > 0,
            a * d <= c * b,
            c * f < e * d,
    {}
    assert(a * f < e * b) by (nonlinear_arith)
        requires
            d > 0,
            a * f * d < e * b * d,
    {}
}

/// From `a/b < c/d` and `c/d <= e/f` conclude `a/b < e/f`.
pub proof fn lemma_rat_lt_le_trans(a: int, b: int, c: int, d: int, e: int, f: int)
    requires
        b > 0,
        d > 0,
        f > 0,
        rat_lt(a, b, c, d),
        rat_le(c, d, e, f),
    ensures
        rat_lt(a, b, e, f),
{
    assert(a * f * d < e * b * d) by (nonlinear_arith)
        requires
            b > 0,
            d > 0,
            f > 0,
            a * d < c * b,
            c * f <= e * d,
    {}
    assert(a * f < e * b) by (nonlinear_arith)
        requires
            d > 0,
            a * f * d < e * b * d,
    {}
}

/// Exact comparison of two bounded rationals.
fn rat_lt_exec(p1: i128, q1: i128, p2: i128, q2: i128) -> (r: bool)
    requires
        0 < q1 <= 0x1000000000000000,
        0 < q2 <= 0x1000000000000000,
        -0x1000000000000000 <= p1 <= 0x1000000000000000,
        -0x1000000000000000 <= p2 <= 0x1000000000000000,
    ensures
        r == rat_lt(p1 as int, q1 as int, p2 as int, q2 as int),
{
    proof {
        let m: int = 0x1000000000000000;
        assert(-m * m <= p1 * q2 <= m * m && -m * m <= p2 * q1 <= m * m) by (nonlinear_arith)
            requires
                -m <= p1 <= m,
                -m <= p2 <= m,
                0 < q1 <= m,
                0 < q2 <= m,
        {}
    }
    p1 * q2 < p2 * q1
}

/// Boxes may stick out beyond scene coordinates (a rotated box does),
/// but only this far: four times the scene bound.
pub const BOX_LIMIT: i64 = 268435456;

/// A box corner coordinate the slab test can handle.
pub open spec fn box_coord_ok(c: int) -> bool {
    -BOX_LIMIT <= c <= BOX_LIMIT
}

impl AABB {
    /// Corners ordered and within the slab test's coordinate range.
    pub open spec fn wf(self) -> bool {
        box_coord_ok(self.minimum.x as int) && box_coord_ok(self.minimum.y as int) && box_coord_ok(
            self.minimum.z as int,
        ) && box_coord_ok(self.maximum.x as int) && box_coord_ok(self.maximum.y as int)
            && box_coord_ok(self.maximum.z as int) && self.minimum.x <= self.maximum.x
            && self.minimum.y <= self.maximum.y && self.minimum.z <= self.maximum.z
    }

    pub fn default() -> (b: AABB)
        ensures
            b.minimum.x == -(SCALE as int),
            b.minimum.y == -(SCALE as int),
            b.minimum.z == -(SCALE as int),
            b.maximum.x == SCALE,
            b.maximum.y == SCALE,
            b.maximum.z == SCALE,
            b.wf(),
    {
        AABB {
            minimum: Vec3 { x: -SCALE, y: -SCALE, z: -SCALE },
            maximum: Vec3 { x: SCALE, y: SCALE, z: SCALE },
        }
    }

    /// Builds the box spanned by two opposite corners, in either order:
    /// the corners are normalised componentwise, so the documented
    /// invariant `minimum <= maximum` holds however they are passed.
    pub fn new(a: &Vec3, b: &Vec3) -> (r: AABB)
        ensures
            r.minimum.x == if a.x <= b.x { a.x } else { b.x },
            r.minimum.y == if a.y <= b.y { a.y } else { b.y },
            r.minimum.z == if a.z <= b.z { a.z } else { b.z },
            r.maximum.x == if a.x <= b.x { b.x } else { a.x },
            r.maximum.y == if a.y <= b.y { b.y } else { a.y },
            r.maximum.z == if a.z <= b.z { b.z } else { a.z },
            a.wf() && b.wf() ==> r.wf(),
    {
        AABB {
            minimum: Vec3 {
                x: if a.x <= b.x { a.x } else { b.x },
                y: if a.y <= b.y { a.y } else { b.y },
                z: if a.z <= b.z { a.z } else { b.z },
            },
            maximum: Vec3 {
                x: if a.x <= b.x { b.x } else { a.x },
                y: if a.y <= b.y { b.y } else { a.y },
                z: if a.z <= b.z { b.z } else { a.z },
            },
        }
    }

    pub fn min(&self) -> (v: Vec3)
        ensures
            v == self.minimum,
    {
        self.minimum
    }

    pub fn max(&self) -> (v: Vec3)
        ensures
            v == self.maximum,
    {
        self.maximum
    }

    /// Swapping the corners handed to construction changes nothing.
    pub proof fn lemma_new_swap(a: Vec3, b: Vec3)
        ensures
            (AABB {
                minimum: Vec3 {
                    x: if a.x <= b.x { a.x } else { b.x },
                    y: if a.y <= b.y { a.y } else { b.y },
                    z: if a.z <= b.z { a.z } else { b.z },
                },
                maximum: Vec3 {
                    x: if a.x <= b.x { b.x } else { a.x },
                    y: if a.y <= b.y { b.y } else { a.y },
                    z: if a.z <= b.z { b.z } else { a.z },
                },
            }) == (AABB {
                minimum: Vec3 {
                    x: if b.x <= a.x { b.x } else { a.x },
                    y: if b.y <= a.y { b.y } else { a.y },
                    z: if b.z <= a.z { b.z } else { a.z },
                },
                maximum: Vec3 {
                    x: if b.x <= a.x { a.x } else { b.x },
                    y: if b.y <= a.y { a.y } else { b.y },
                    z: if b.z <= a.z { a.z } else { b.z },
                },
            }),
    {
    }

    /// The slab test: true exactly when the closed slab intervals and
    /// the open query interval have a common ray parameter.
    #[verifier::rlimit(100)]
    pub fn hit(&self, r: &Ray, t_min: i64, t_max: i64) -> (res: bool)
        requires
            self.wf(),
            r.wf(),
            t_ok(t_min as int),
            t_ok(t_max as int),
        ensures
            res == aabb_hit_spec(*self, *r, t_min as int, t_max as int),
    {
        let ghost b = *self;
        let ghost rr = *r;
        let ghost tmn = t_min as int;
        let ghost tmx = t_max as int;
        let mut ln: i128 = t_min as i128;
        let mut ld: i128 = 1;
        let mut hn: i128 = t_max as i128;
        let mut hd: i128 = 1;
        let ghost mut gi: int = 3;
        let ghost mut gj: int = 3;
        let mut a: usize = 0;
        while a < 3
            invariant
                b.wf(),
                rr.wf(),
                t_ok(tmn),
                t_ok(tmx),
                b == *self,
                rr == *r,
                tmn == t_min as int,
                tmx == t_max as int,
                a <= 3,
                0 <= gi < 4,
                0 <= gj < 4,
                gi == 3 || gi < a,
                gj == 3 || gj < a,
                ln as int == lo_n(b, rr, tmn, gi),
                ld as int == den_of(rr, gi),
                hn as int == hi_n(b, rr, tmx, gj),
                hd as int == den_of(rr, gj),
                forall|i: int|
                    0 <= i < a || i == 3 ==> rat_le(
                        #[trigger] lo_n(b, rr, tmn, i),
                        den_of(rr, i),
                        lo_n(b, rr, tmn, gi),
                        den_of(rr, gi),
                    ),
                forall|j: int|
                    0 <= j < a || j == 3 ==> rat_le(
                        hi_n(b, rr, tmx, gj),
                        den_of(rr, gj),
                        #[trigger] hi_n(b, rr, tmx, j),
                        den_of(rr, j),
                    ),
                forall|i: int|
                    0 <= i < a && axis_of(rr.dir, i) == 0 ==> axis_of(b.minimum, i) <= axis_of(
                        rr.orig,
                        i,
                    ) <= axis_of(b.maximum, i),
            decreases 3 - a,
        {
            let (mn, mx, o, d): (i64, i64, i64, i64) = if a == 0 {
                (self.minimum.x, self.maximum.x, r.orig.x, r.dir.x)
            } else if a == 1 {
                (self.minimum.y, self.maximum.y, r.orig.y, r.dir.y)
            } else {
                (self.minimum.z, self.maximum.z, r.orig.z, r.dir.z)
            };
            proof {
                assert(mn as int == axis_of(b.minimum, a as int));
                assert(mx as int == axis_of(b.maximum, a as int));
                assert(o as int == axis_of(rr.orig, a as int));
                assert(d as int == axis_of(rr.dir, a as int));
            }
            if d == 0 {
                proof {
                    assert(lo_n(b, rr, tmn, a as int) == tmn);
                    assert(den_of(rr, a as int) == 1);
                    assert(hi_n(b, rr, tmx, a as int) == tmx);
                    assert(lo_n(b, rr, tmn, 3) == tmn && den_of(rr, 3) == 1);
                    assert(hi_n(b, rr, tmx, 3) == tmx);
                    assert(rat_le(
                        lo_n(b, rr, tmn, 3),
                        den_of(rr, 3),
                        lo_n(b, rr, tmn, gi),
                        den_of(rr, gi),
                    ));
                    assert(rat_le(
                        hi_n(b, rr, tmx, gj),
                        den_of(rr, gj),
                        hi_n(b, rr, tmx, 3),
                        den_of(rr, 3),
                    ));
                    assert(rat_le(
                        lo_n(b, rr, tmn, a as int),
                        den_of(rr, a as int),
                        lo_n(b, rr, tmn, gi),
                        den_of(rr, gi),
                    ));
                    assert(rat_le(
                        hi_n(b, rr, tmx, gj),
                        den_of(rr, gj),
                        hi_n(b, rr, tmx, a as int),
                        den_of(rr, a as int),
                    ));
                }
                if o < mn || o > mx {
                    proof {
                        assert(axis_of(rr.dir, a as int) == 0);
                        assert(!(axis_of(b.minimum, a as int) <= axis_of(rr.orig, a as int)
                            && axis_of(rr.orig, a as int) <= axis_of(b.maximum, a as int)));
                        assert(!aabb_hit_spec(b, rr, tmn, tmx));
                    }
                    return false;
                }
            } else {
                let (nlo, nhi, nden): (i128, i128, i128) = if d > 0 {
                    (
                        (SCALE as i128) * ((mn as i128) - (o as i128)),
                        (SCALE as i128) * ((mx as i128) - (o as i128)),
                        d as i128,
                    )
                } else {
                    (
                        (SCALE as i128) * ((o as i128) - (mx as i128)),
                        (SCALE as i128) * ((o as i128) - (mn as i128)),
                        -(d as i128),
                    )
                };
                proof {
                    assert(nlo as int == lo_n(b, rr, tmn, a as int));
                    assert(nhi as int == hi_n(b, rr, tmx, a as int));
                    assert(nden as int == den_of(rr, a as int));
                }
                if rat_lt_exec(ln, ld, nlo, nden) {
                    ln = nlo;
                    ld = nden;
                    proof {
                        let old_gi = gi;
                        gi = a as int;
                        assert forall|i: int| 0 <= i < a + 1 || i == 3 implies rat_le(
                            #[trigger] lo_n(b, rr, tmn, i),
                            den_of(rr, i),
                            lo_n(b, rr, tmn, gi),
                            den_of(rr, gi),
                        ) by {
                            if i == a as int {
                            } else {
                                lemma_rat_le_lt_trans(
                                    lo_n(b, rr, tmn, i),
                                    den_of(rr, i),
                                    lo_n(b, rr, tmn, old_gi),
                                    den_of(rr, old_gi),
                                    lo_n(b, rr, tmn, gi),
                                    den_of(rr, gi),
                                );
                            }
                        }
                    }
                } else {
                    proof {
                        assert forall|i: int| 0 <= i < a + 1 || i == 3 implies rat_le(
                            #[trigger] lo_n(b, rr, tmn, i),
                            den_of(rr, i),
                            lo_n(b, rr, tmn, gi),
                            den_of(rr, gi),
                        ) by {}
                    }
                }
                if rat_lt_exec(nhi, nden, hn, hd) {
                    hn = nhi;
                    hd = nden;
                    proof {
                        let old_gj = gj;
                        gj = a as int;
                        assert forall|j: int| 0 <= j < a + 1 || j == 3 implies rat_le(
                            hi_n(b, rr, tmx, gj),
                            den_of(rr, gj),
                            #[trigger] hi_n(b, rr, tmx, j),
                            den_of(rr, j),
                        ) by {
                            if j == a as int {
                            } else {
                                lemma_rat_lt_le_trans(
                                    hi_n(b, rr, tmx, gj),
                                    den_of(rr, gj),
                                    hi_n(b, rr, tmx, old_gj),
                                    den_of(rr, old_gj),
                                    hi_n(b, rr, tmx, j),
                                    den_of(rr, j),
                                );
                            }
                        }
                    }
                } else {
                    proof {
                        assert forall|j: int| 0 <= j < a + 1 || j == 3 implies rat_le(
                            hi_n(b, rr, tmx, gj),
                            den_of(rr, gj),
                            #[trigger] hi_n(b, rr, tmx, j),
                            den_of(rr, j),
                        ) by {}
                    }
                }
                if !rat_lt_exec(ln, ld, hn, hd) {
                    proof {
                        assert(!rat_lt(
                            lo_n(b, rr, tmn, gi),
                            den_of(rr, gi),
                            hi_n(b, rr, tmx, gj),
                            den_of(rr, gj),
                        ));
                        assert(!aabb_hit_spec(b, rr, tmn, tmx));
                    }
                    return false;
                }
            }
            a = a + 1;
        }
        let res = rat_lt_exec(ln, ld, hn, hd);
        proof {
            if res {
                assert forall|i: int, j: int| 0 <= i < 4 && 0 <= j < 4 implies rat_lt(
                    #[trigger] lo_n(b, rr, tmn, i),
                    den_of(rr, i),
                    #[trigger] hi_n(b, rr, tmx, j),
                    den_of(rr, j),
                ) by {
                    lemma_rat_le_lt_trans(
                        lo_n(b, rr, tmn, i),
                        den_of(rr, i),
                        lo_n(b, rr, tmn, gi),
                        den_of(rr, gi),
                        hi_n(b, rr, tmx, gj),
                        den_of(rr, gj),
                    );
                    lemma_rat_lt_le_trans(
                        lo_n(b, rr, tmn, i),
                        den_of(rr, i),
                        hi_n(b, rr, tmx, gj),
                        den_of(rr, gj),
                        hi_n(b, rr, tmx, j),
                        den_of(rr, j),
                    );
                }
                assert(aabb_hit_spec(b, rr, tmn, tmx));
            } else {
                assert(!rat_lt(
                    lo_n(b, rr, tmn, gi),
                    den_of(rr, gi),
                    hi_n(b, rr, tmx, gj),
                    den_of(rr, gj),
                ));
                assert(!aabb_hit_spec(b, rr, tmn, tmx));
            }
        }
        res
    }
}

/// With the same positive denominator, ordering numerators orders the
/// rationals.
proof fn lemma_rat_le_same_den(a: int, b: int, d: int)
    requires
        a <= b,
        d > 0,
    ensures
        rat_le(a, d, b, d),
{
    assert(a * d <= b * d) by (nonlinear_arith)
        requires
            a <= b,
            d > 0,
    {}
}

/// A box containing another reports a hit whenever the smaller one
/// does: its slab bounds are only looser.
pub proof fn lemma_covers_hit(small: AABB, big: AABB, r: Ray, tmin: int, tmax: int)
    requires
        big.minimum.x <= small.minimum.x,
        big.minimum.y <= small.minimum.y,
        big.minimum.z <= small.minimum.z,
        big.maximum.x >= small.maximum.x,
        big.maximum.y >= small.maximum.y,
        big.maximum.z >= small.maximum.z,
        aabb_hit_spec(small, r, tmin, tmax),
    ensures
        aabb_hit_spec(big, r, tmin, tmax),
{
    assert forall|a: int| 0 <= a < 3 && axis_of(r.dir, a) == 0 implies axis_of(big.minimum, a)
        <= axis_of(r.orig, a) <= axis_of(big.maximum, a) by {}
    assert forall|i: int, j: int| 0 <= i < 4 && 0 <= j < 4 implies rat_lt(
        #[trigger] lo_n(big, r, tmin, i),
        den_of(r, i),
        #[trigger] hi_n(big, r, tmax, j),
        den_of(r, j),
    ) by {
        assert(lo_n(big, r, tmin, i) <= lo_n(small, r, tmin, i));
        assert(hi_n(small, r, tmax, j) <= hi_n(big, r, tmax, j));
        lemma_rat_le_same_den(lo_n(big, r, tmin, i), lo_n(small, r, tmin, i), den_of(r, i));
        lemma_rat_le_same_den(hi_n(small, r, tmax, j), hi_n(big, r, tmax, j), den_of(r, j));
        assert(rat_lt(lo_n(small, r, tmin, i), den_of(r, i), hi_n(small, r, tmax, j), den_of(r, j)));
        lemma_rat_le_lt_trans(
            lo_n(big, r, tmin, i),
            den_of(r, i),
            lo_n(small, r, tmin, i),
            den_of(r, i),
            hi_n(small, r, tmax, j),
            den_of(r, j),
        );
        lemma_rat_lt_le_trans(
            lo_n(big, r, tmin, i),
            den_of(r, i),
            hi_n(small, r, tmax, j),
            den_of(r, j),
            hi_n(big, r, tmax, j),
            den_of(r, j),
        );
    }
}

/// Widening the query window preserves a box hit.
pub proof fn lemma_hit_wider(b: AABB, r: Ray, tmin: int, w: int, tmax: int)
    requires
        w <= tmax,
        aabb_hit_spec(b, r, tmin, w),
    ensures
        aabb_hit_spec(b, r, tmin, tmax),
{
    assert forall|i: int, j: int| 0 <= i < 4 && 0 <= j < 4 implies rat_lt(
        #[trigger] lo_n(b, r, tmin, i),
        den_of(r, i),
        #[trigger] hi_n(b, r, tmax, j),
        den_of(r, j),
    ) by {
        assert(rat_lt(lo_n(b, r, tmin, i), den_of(r, i), hi_n(b, r, w, j), den_of(r, j)));
        assert(hi_n(b, r, w, j) <= hi_n(b, r, tmax, j));
        lemma_rat_le_same_den(hi_n(b, r, w, j), hi_n(b, r, tmax, j), den_of(r, j));
        lemma_rat_lt_le_trans(
            lo_n(b, r, tmin, i),
            den_of(r, i),
            hi_n(b, r, w, j),
            den_of(r, j),
            hi_n(b, r, tmax, j),
            den_of(r, j),
        );
    }
}

/// At the rational ray parameter `tn / td`, the position on axis `a`
/// lies strictly between the box bounds (all cross-multiplied by the
/// positive `td * SCALE`).
pub open spec fn strict_axis_witness(b: AABB, r: Ray, tn: int, td: int, a: int) -> bool {
    axis_of(b.minimum, a) * td * (SCALE as int) < axis_of(r.orig, a) * td * (SCALE as int) + tn
        * axis_of(r.dir, a) && axis_of(r.orig, a) * td * (SCALE as int) + tn * axis_of(r.dir, a)
        < axis_of(b.maximum, a) * td * (SCALE as int)
}

/// A rational ray parameter `tn / td` that lies strictly inside the
/// query window and strictly inside every slab the ray crosses (with
/// parallel axes containing the origin) makes the slab test pass.
pub proof fn lemma_witness_implies_hit(b: AABB, r: Ray, tmin: int, tmax: int, tn: int, td: int)
    requires
        td > 0,
        tmin * td < tn,
        tn < tmax * td,
        forall|a: int|
            0 <= a < 3 && axis_of(r.dir, a) == 0 ==> axis_of(b.minimum, a) <= axis_of(r.orig, a)
                <= axis_of(b.maximum, a),
        forall|a: int|
            0 <= a < 3 && axis_of(r.dir, a) != 0 ==> #[trigger] strict_axis_witness(
                b,
                r,
                tn,
                td,
                a,
            ),
    ensures
        aabb_hit_spec(b, r, tmin, tmax),
{
    assert forall|i: int, j: int| 0 <= i < 4 && 0 <= j < 4 implies rat_lt(
        #[trigger] lo_n(b, r, tmin, i),
        den_of(r, i),
        #[trigger] hi_n(b, r, tmax, j),
        den_of(r, j),
    ) by {
        assert(rat_lt(lo_n(b, r, tmin, i), den_of(r, i), tn, td)) by {
            if 0 <= i < 3 && axis_of(r.dir, i) != 0 {
                let mn = axis_of(b.minimum, i);
                let mx = axis_of(b.maximum, i);
                let o = axis_of(r.orig, i);
                let d = axis_of(r.dir, i);
                let s = SCALE as int;
                assert(strict_axis_witness(b, r, tn, td, i));
                if d > 0 {
                    assert((s * (mn - o)) * td < tn * d) by (nonlinear_arith)
                        requires
                            mn * td * s < o * td * s + tn * d,
                    {}
                } else {
                    assert((s * (o - mx)) * td < tn * (-d)) by (nonlinear_arith)
                        requires
                            o * td * s + tn * d < mx * td * s,
                    {}
                }
            }
        }
        assert(rat_lt(tn, td, hi_n(b, r, tmax, j), den_of(r, j))) by {
            if 0 <= j < 3 && axis_of(r.dir, j) != 0 {
                let mn = axis_of(b.minimum, j);
                let mx = axis_of(b.maximum, j);
                let o = axis_of(r.orig, j);
                let d = axis_of(r.dir, j);
                let s = SCALE as int;
                assert(strict_axis_witness(b, r, tn, td, j));
                if d > 0 {
                    assert(tn * d < (s * (mx - o)) * td) by (nonlinear_arith)
                        requires
                            o * td * s + tn * d < mx * td * s,
                    {}
                } else {
                    assert(tn * (-d) < (s * (o - mn)) * td) by (nonlinear_arith)
                        requires
                            mn * td * s < o * td * s + tn * d,
                    {}
                }
            }
        }
        assert(rat_le(lo_n(b, r, tmin, i), den_of(r, i), tn, td));
        lemma_rat_le_lt_trans(
            lo_n(b, r, tmin, i),
            den_of(r, i),
            tn,
            td,
            hi_n(b, r, tmax, j),
            den_of(r, j),
        );
    }
}

/// The componentwise union of two boxes.
pub fn surrounding_box(box0: AABB, box1: AABB) -> (r: AABB)
    ensures
        r.minimum.x == if box0.minimum.x <= box1.minimum.x { box0.minimum.x } else { box1.minimum.x },
        r.minimum.y == if box0.minimum.y <= box1.minimum.y { box0.minimum.y } else { box1.minimum.y },
        r.minimum.z == if box0.minimum.z <= box1.minimum.z { box0.minimum.z } else { box1.minimum.z },
        r.maximum.x == if box0.maximum.x >= box1.maximum.x { box0.maximum.x } else { box1.maximum.x },
        r.maximum.y == if box0.maximum.y >= box1.maximum.y { box0.maximum.y } else { box1.maximum.y },
        r.maximum.z == if box0.maximum.z >= box1.maximum.z { box0.maximum.z } else { box1.maximum.z },
        box0.wf() && box1.wf() ==> r.wf(),
        r == union_spec(box0, box1),
{
    AABB {
        minimum: Vec3 {
            x: if box0.minimum.x <= box1.minimum.x { box0.minimum.x } else { box1.minimum.x },
            y: if box0.minimum.y <= box1.minimum.y { box0.minimum.y } else { box1.minimum.y },
            z: if box0.minimum.z <= box1.minimum.z { box0.minimum.z } else { box1.minimum.z },
        },
        maximum: Vec3 {
            x: if box0.maximum.x >= box1.maximum.x { box0.maximum.x } else { box1.maximum.x },
            y: if box0.maximum.y >= box1.maximum.y { box0.maximum.y } else { box1.maximum.y },
            z: if box0.maximum.z >= box1.maximum.z { box0.maximum.z } else { box1.maximum.z },
        },
    }
}

/// The componentwise union, as a specification value.
pub open spec fn union_spec(b0: AABB, b1: AABB) -> AABB {
    AABB {
        minimum: Vec3 {
            x: if b0.minimum.x <= b1.minimum.x { b0.minimum.x } else { b1.minimum.x },
            y: if b0.minimum.y <= b1.minimum.y { b0.minimum.y } else { b1.minimum.y },
            z: if b0.minimum.z <= b1.minimum.z { b0.minimum.z } else { b1.minimum.z },
        },
        maximum: Vec3 {
            x: if b0.maximum.x >= b1.maximum.x { b0.maximum.x } else { b1.maximum.x },
            y: if b0.maximum.y >= b1.maximum.y { b0.maximum.y } else { b1.maximum.y },
            z: if b0.maximum.z >= b1.maximum.z { b0.maximum.z } else { b1.maximum.z },
        },
    }
}

} // verus!
