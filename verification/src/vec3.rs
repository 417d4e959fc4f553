//! Three-component fixed-point vectors, used as points, directions and
//! colours alike.

use vstd::prelude::*;

verus! {

use crate::SCALE;
use crate::fixed::{div_f, div_floor, fmul, isqrt, isqrt_spec};

/// Largest coordinate magnitude (raw) that scene data may use: 1024
/// world units.  Keeping scene coordinates inside this bound lets every
/// intermediate product fit in `i128`.  Scenes that place entities
/// beyond it (a fog boundary thousands of units wide, say) are outside
/// this model and must be scaled down to fit.
pub const COORD_LIMIT: i64 = 67108864;

/// Largest ray-parameter magnitude (raw) that intersection queries may
/// use; it plays the role of "infinity".
pub const T_LIMIT: i64 = 1099511627776;

/// A fixed-point scalar small enough for scene coordinates.
pub open spec fn coord_ok(c: int) -> bool {
    -COORD_LIMIT <= c <= COORD_LIMIT
}

/// A ray parameter within the supported query range.
pub open spec fn t_ok(t: int) -> bool {
    -T_LIMIT <= t <= T_LIMIT
}

/// `a * b / SCALE`, the exact fixed-point product rounded down.
pub open spec fn fmul_s(a: int, b: int) -> int {
    a * b / (SCALE as int)
}

#[derive(Clone, Copy, PartialEq, Eq, Structural, Debug)]
pub struct Vec3 {
    pub x: i64,
    pub y: i64,
    pub z: i64,
}

/// Exact dot product of raw components (carries a factor `SCALE^2`).
pub open spec fn dot_spec(u: Vec3, v: Vec3) -> int {
    u.x * v.x + u.y * v.y + u.z * v.z
}

impl Vec3 {
    /// All three components within the scene coordinate bound.
    pub open spec fn wf(self) -> bool {
        coord_ok(self.x as int) && coord_ok(self.y as int) && coord_ok(self.z as int)
    }

    pub fn new(x: i64, y: i64, z: i64) -> (v: Vec3)
        ensures
            v == (Vec3 { x, y, z }),
    {
        Vec3 { x, y, z }
    }

    pub fn x(&self) -> (r: i64)
        ensures
            r == self.x,
    {
        self.x
    }

    pub fn y(&self) -> (r: i64)
        ensures
            r == self.y,
    {
        self.y
    }

    pub fn z(&self) -> (r: i64)
        ensures
            r == self.z,
    {
        self.z
    }

    pub fn add(&self, o: &Vec3) -> (r: Vec3)
        requires
            i64::MIN <= self.x + o.x <= i64::MAX,
            i64::MIN <= self.y + o.y <= i64::MAX,
            i64::MIN <= self.z + o.z <= i64::MAX,
        ensures
            r == (Vec3 { x: (self.x + o.x) as i64, y: (self.y + o.y) as i64, z: (self.z + o.z) as i64 }),
    {
        Vec3 { x: self.x + o.x, y: self.y + o.y, z: self.z + o.z }
    }

    pub fn sub(&self, o: &Vec3) -> (r: Vec3)
        requires
            i64::MIN <= self.x - o.x <= i64::MAX,
            i64::MIN <= self.y - o.y <= i64::MAX,
            i64::MIN <= self.z - o.z <= i64::MAX,
        ensures
            r == (Vec3 { x: (self.x - o.x) as i64, y: (self.y - o.y) as i64, z: (self.z - o.z) as i64 }),
    {
        Vec3 { x: self.x - o.x, y: self.y - o.y, z: self.z - o.z }
    }

    pub fn neg(&self) -> (r: Vec3)
        requires
            self.x > i64::MIN,
            self.y > i64::MIN,
            self.z > i64::MIN,
        ensures
            r == (Vec3 { x: (-self.x) as i64, y: (-self.y) as i64, z: (-self.z) as i64 }),
    {
        Vec3 { x: -self.x, y: -self.y, z: -self.z }
    }

    /// Componentwise fixed-point scaling by `k`.
    pub fn scale(&self, k: i64) -> (r: Vec3)
        requires
            i64::MIN * (SCALE as int) <= self.x * k <= i64::MAX * (SCALE as int),
            i64::MIN * (SCALE as int) <= self.y * k <= i64::MAX * (SCALE as int),
            i64::MIN * (SCALE as int) <= self.z * k <= i64::MAX * (SCALE as int),
        ensures
            r == (Vec3 {
                x: fmul_s(self.x as int, k as int) as i64,
                y: fmul_s(self.y as int, k as int) as i64,
                z: fmul_s(self.z as int, k as int) as i64,
            }),
    {
        Vec3 { x: fmul(self.x, k), y: fmul(self.y, k), z: fmul(self.z, k) }
    }

    /// Componentwise fixed-point product (colour modulation).
    pub fn mul(&self, o: &Vec3) -> (r: Vec3)
        requires
            i64::MIN * (SCALE as int) <= self.x * o.x <= i64::MAX * (SCALE as int),
            i64::MIN * (SCALE as int) <= self.y * o.y <= i64::MAX * (SCALE as int),
            i64::MIN * (SCALE as int) <= self.z * o.z <= i64::MAX * (SCALE as int),
        ensures
            r == (Vec3 {
                x: fmul_s(self.x as int, o.x as int) as i64,
                y: fmul_s(self.y as int, o.y as int) as i64,
                z: fmul_s(self.z as int, o.z as int) as i64,
            }),
    {
        Vec3 { x: fmul(self.x, o.x), y: fmul(self.y, o.y), z: fmul(self.z, o.z) }
    }

    /// Exact dot product of the raw components, in `SCALE^2` units.
    pub fn dot(u: &Vec3, v: &Vec3) -> (r: i128)
        requires
            u.wf(),
            -4 * (COORD_LIMIT as int) <= v.x <= 4 * (COORD_LIMIT as int),
            -4 * (COORD_LIMIT as int) <= v.y <= 4 * (COORD_LIMIT as int),
            -4 * (COORD_LIMIT as int) <= v.z <= 4 * (COORD_LIMIT as int),
        ensures
            r == dot_spec(*u, *v),
    {
        proof {
            let l = COORD_LIMIT as int;
            assert(u.x * v.x <= 4 * l * l && u.x * v.x >= -4 * l * l) by (nonlinear_arith)
                requires
                    -l <= u.x <= l,
                    -4 * l <= v.x <= 4 * l,
                    l == COORD_LIMIT as int,
            {}
            assert(u.y * v.y <= 4 * l * l && u.y * v.y >= -4 * l * l) by (nonlinear_arith)
                requires
                    -l <= u.y <= l,
                    -4 * l <= v.y <= 4 * l,
                    l == COORD_LIMIT as int,
            {}
            assert(u.z * v.z <= 4 * l * l && u.z * v.z >= -4 * l * l) by (nonlinear_arith)
                requires
                    -l <= u.z <= l,
                    -4 * l <= v.z <= 4 * l,
                    l == COORD_LIMIT as int,
            {}
        }
        (u.x as i128) * (v.x as i128) + (u.y as i128) * (v.y as i128) + (u.z as i128) * (v.z as i128)
    }

    /// Squared length of the raw components, in `SCALE^2` units.
    pub fn length_squared(&self) -> (r: i128)
        requires
            self.wf(),
        ensures
            r == dot_spec(*self, *self),
            r >= 0,
    {
        let r = Vec3::dot(self, self);
        proof {
            assert(dot_spec(*self, *self) >= 0) by (nonlinear_arith) {}
        }
        r
    }

    /// Length of the vector in raw units, rounded down.
    pub fn length(&self) -> (r: i64)
        requires
            self.wf(),
        ensures
            r == isqrt_spec(dot_spec(*self, *self)),
            r >= 0,
    {
        let sq = self.length_squared();
        let r = isqrt(sq);
        proof {
            let l = COORD_LIMIT as int;
            assert(dot_spec(*self, *self) <= 3 * l * l) by (nonlinear_arith)
                requires
                    -l <= self.x <= l,
                    -l <= self.y <= l,
                    -l <= self.z <= l,
            {}
            assert(r <= 2 * l) by (nonlinear_arith)
                requires
                    (r as int) * (r as int) <= 3 * l * l,
                    r >= 0,
                    l > 0,
            {}
        }
        r as i64
    }

    /// Exact fixed-point cross product.
    pub fn cross(u: &Vec3, v: &Vec3) -> (r: Vec3)
        requires
            u.wf(),
            v.wf(),
        ensures
            r == (Vec3 {
                x: div_f(u.y * v.z - u.z * v.y, SCALE as int) as i64,
                y: div_f(u.z * v.x - u.x * v.z, SCALE as int) as i64,
                z: div_f(u.x * v.y - u.y * v.x, SCALE as int) as i64,
            }),
    {
        proof {
            lemma_cross_bounds(*u, *v);
        }
        let x = div_floor((u.y as i128) * (v.z as i128) - (u.z as i128) * (v.y as i128), SCALE as i128);
        let y = div_floor((u.z as i128) * (v.x as i128) - (u.x as i128) * (v.z as i128), SCALE as i128);
        let z = div_floor((u.x as i128) * (v.y as i128) - (u.y as i128) * (v.x as i128), SCALE as i128);
        Vec3 { x: x as i64, y: y as i64, z: z as i64 }
    }

    /// The vector rescaled to (floor) unit length.
    pub fn unit_vector(v: &Vec3) -> (r: Vec3)
        requires
            v.wf(),
            dot_spec(*v, *v) > 0,
        ensures
            r == (Vec3 {
                x: div_f(v.x * (SCALE as int), isqrt_spec(dot_spec(*v, *v))) as i64,
                y: div_f(v.y * (SCALE as int), isqrt_spec(dot_spec(*v, *v))) as i64,
                z: div_f(v.z * (SCALE as int), isqrt_spec(dot_spec(*v, *v))) as i64,
            }),
    {
        let len = v.length();
        proof {
            lemma_unit_bounds(*v, len as int);
        }
        let x = div_floor((v.x as i128) * (SCALE as i128), len as i128);
        let y = div_floor((v.y as i128) * (SCALE as i128), len as i128);
        let z = div_floor((v.z as i128) * (SCALE as i128), len as i128);
        Vec3 { x: x as i64, y: y as i64, z: z as i64 }
    }

    /// True only for the exact zero vector (the fixed-point analogue of
    /// a near-zero test).
    pub fn near_zero(&self) -> (r: bool)
        ensures
            r == (self.x == 0 && self.y == 0 && self.z == 0),
    {
        self.x == 0 && self.y == 0 && self.z == 0
    }
}

/// Cross-product intermediates stay inside the representable range.
proof fn lemma_cross_bounds(u: Vec3, v: Vec3)
    requires
        u.wf(),
        v.wf(),
    ensures
        -2 * (COORD_LIMIT as int) * (COORD_LIMIT as int) <= u.y * v.z - u.z * v.y
            <= 2 * (COORD_LIMIT as int) * (COORD_LIMIT as int),
        -2 * (COORD_LIMIT as int) * (COORD_LIMIT as int) <= u.z * v.x - u.x * v.z
            <= 2 * (COORD_LIMIT as int) * (COORD_LIMIT as int),
        -2 * (COORD_LIMIT as int) * (COORD_LIMIT as int) <= u.x * v.y - u.y * v.x
            <= 2 * (COORD_LIMIT as int) * (COORD_LIMIT as int),
        i128::MIN < u.y * v.z < i128::MAX,
        i128::MIN < u.z * v.y < i128::MAX,
        i128::MIN < u.z * v.x < i128::MAX,
        i128::MIN < u.x * v.z < i128::MAX,
        i128::MIN < u.x * v.y < i128::MAX,
        i128::MIN < u.y * v.x < i128::MAX,
        i64::MIN <= div_f(u.y * v.z - u.z * v.y, SCALE as int) <= i64::MAX,
        i64::MIN <= div_f(u.z * v.x - u.x * v.z, SCALE as int) <= i64::MAX,
        i64::MIN <= div_f(u.x * v.y - u.y * v.x, SCALE as int) <= i64::MAX,
{
    let l = COORD_LIMIT as int;
    lemma_prod_diff_bound(u.y as int, v.z as int, u.z as int, v.y as int, l);
    lemma_prod_diff_bound(u.z as int, v.x as int, u.x as int, v.z as int, l);
    lemma_prod_diff_bound(u.x as int, v.y as int, u.y as int, v.x as int, l);
    lemma_div_f_bounds(u.y * v.z - u.z * v.y, SCALE as int, -2 * l * l, 2 * l * l);
    lemma_div_f_bounds(u.z * v.x - u.x * v.z, SCALE as int, -2 * l * l, 2 * l * l);
    lemma_div_f_bounds(u.x * v.y - u.y * v.x, SCALE as int, -2 * l * l, 2 * l * l);
}

/// A difference of two bounded products is bounded.
proof fn lemma_prod_diff_bound(a: int, b: int, c: int, d: int, l: int)
    requires
        -l <= a <= l,
        -l <= b <= l,
        -l <= c <= l,
        -l <= d <= l,
        l > 0,
    ensures
        -2 * l * l <= a * b - c * d <= 2 * l * l,
        -l * l <= a * b <= l * l,
        -l * l <= c * d <= l * l,
{
    assert(-l * l <= a * b <= l * l && -l * l <= c * d <= l * l) by (nonlinear_arith)
        requires
            -l <= a <= l,
            -l <= b <= l,
            -l <= c <= l,
            -l <= d <= l,
            l > 0,
    {}
    assert(-2 * l * l <= a * b - c * d <= 2 * l * l) by (nonlinear_arith)
        requires
            -l <= a <= l,
            -l <= b <= l,
            -l <= c <= l,
            -l <= d <= l,
            l > 0,
    {}
}

/// Floor division by a positive divisor keeps a value between bounds
/// on the dividend.
pub proof fn lemma_div_f_bounds(p: int, q: int, lo: int, hi: int)
    requires
        q > 0,
        lo <= p <= hi,
        lo <= 0,
        hi >= 0,
    ensures
        lo <= div_f(p, q) <= hi,
{
    vstd::arithmetic::div_mod::lemma_fundamental_div_mod(p, q);
    let d = p / q;
    let m = p % q;
    assert(p == q * d + m && 0 <= m < q);
    assert(lo <= d) by (nonlinear_arith)
        requires
            p == q * d + m,
            0 <= m < q,
            q > 0,
            p >= lo,
            lo <= 0,
    {}
    assert(d <= hi) by (nonlinear_arith)
        requires
            p == q * d + m,
            0 <= m < q,
            q > 0,
            p <= hi,
            hi >= 0,
    {}
}

/// Division of a bounded numerator by a positive length stays in range.
proof fn lemma_unit_bounds(v: Vec3, len: int)
    requires
        v.wf(),
        len == isqrt_spec(dot_spec(v, v)),
        dot_spec(v, v) > 0,
    ensures
        len > 0,
        i64::MIN <= div_f(v.x * (SCALE as int), len) <= i64::MAX,
        i64::MIN <= div_f(v.y * (SCALE as int), len) <= i64::MAX,
        i64::MIN <= div_f(v.z * (SCALE as int), len) <= i64::MAX,
{
    let n = dot_spec(v, v);
    assert(crate::fixed::is_isqrt(n, len)) by {
        crate::fixed::lemma_isqrt_exists(n);
    }
    assert(len > 0) by (nonlinear_arith)
        requires
            0 <= len,
            len * len <= n,
            n < (len + 1) * (len + 1),
            n > 0,
    {}
    let l = COORD_LIMIT as int;
    let s = SCALE as int;
    lemma_unit_component(v.x as int, len, l, s);
    lemma_unit_component(v.y as int, len, l, s);
    lemma_unit_component(v.z as int, len, l, s);
}

/// One component of a unit-vector division stays in range.
proof fn lemma_unit_component(c: int, len: int, l: int, s: int)
    requires
        -l <= c <= l,
        l > 0,
        s > 0,
        len > 0,
        l * s <= i64::MAX,
    ensures
        i64::MIN <= -l * s <= div_f(c * s, len) <= l * s <= i64::MAX,
{
    assert(-l * s <= c * s <= l * s) by (nonlinear_arith)
        requires
            -l <= c <= l,
            s > 0,
            l > 0,
    {}
    assert(l * s > 0) by (nonlinear_arith)
        requires
            l > 0,
            s > 0,
    {}
    assert((-l) * s == -(l * s)) by (nonlinear_arith) {}
    lemma_div_f_bounds(c * s, len, -l * s, l * s);
}

} // verus!
