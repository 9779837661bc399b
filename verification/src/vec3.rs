use crate::rtweekend::{
    iabs, is_sqrt_floor, isqrt, lemma_sqrt_floor_is, lemma_tdiv_bounds, lemma_tdiv_mul_cancel,
    lemma_tdiv_sign, rand_01, rand_double, sqrt_floor, tdiv, tdiv64, COORD_MAX, SCALE,
};
use vstd::prelude::*;

verus! {

/// A 3-component vector of fixed-point values, used interchangeably as a
/// spatial point, a direction, or an RGB colour.
#[derive(Clone, Copy, PartialEq, Eq, Structural, Debug)]
pub struct Vec3 {
    pub x: i64,
    pub y: i64,
    pub z: i64,
}

pub type Point3 = Vec3;

pub type Color = Vec3;

/// All three components have magnitude at most `b`.
pub open spec fn vbounded(v: Vec3, b: int) -> bool {
    iabs(v.x as int) <= b && iabs(v.y as int) <= b && iabs(v.z as int) <= b
}

/// The raw inner product: the sum of the component products, carrying twice
/// the fixed-point scale.
pub open spec fn dot3(u: Vec3, v: Vec3) -> int {
    u.x * v.x + u.y * v.y + u.z * v.z
}

/// A colour with every channel inside [0, 1] (fixed point: [0, SCALE]).
pub open spec fn color_in_range(c: Color) -> bool {
    0 <= c.x <= SCALE && 0 <= c.y <= SCALE && 0 <= c.z <= SCALE
}

/// The product of two magnitudes is bounded by the product of their bounds.
pub proof fn lemma_abs_mul(a: int, b: int, bound_a: int, bound_b: int)
    requires
        iabs(a) <= bound_a,
        iabs(b) <= bound_b,
    ensures
        iabs(a * b) <= bound_a * bound_b,
{
    assert(iabs(a * b) <= bound_a * bound_b) by (nonlinear_arith)
        requires
            iabs(a) <= bound_a,
            iabs(b) <= bound_b,
    ;
}

/// A quotient is bounded by `q` whenever the dividend is at most `q` times
/// the (positive) divisor.
pub proof fn lemma_tdiv_le(a: int, b: int, q: int)
    requires
        b >= 1,
        0 <= q,
        iabs(a) <= q * b,
    ensures
        iabs(tdiv(a, b)) <= q,
{
    lemma_tdiv_bounds(a, b);
    assert(iabs(a) / b <= (q * b) / b) by {
        vstd::arithmetic::div_mod::lemma_div_is_ordered(iabs(a), q * b, b);
    }
    assert((q * b) / b == q) by {
        vstd::arithmetic::div_mod::lemma_div_by_multiple(q, b);
    }
}

/// The raw inner product of vectors bounded by `a` and `b` is bounded by
/// three times the product of the bounds.
pub proof fn lemma_dot3_bound(u: Vec3, v: Vec3, bound_u: int, bound_v: int)
    requires
        vbounded(u, bound_u),
        vbounded(v, bound_v),
        0 <= bound_u,
        0 <= bound_v,
    ensures
        iabs(dot3(u, v)) <= 3 * (bound_u * bound_v),
{
    lemma_abs_mul(u.x as int, v.x as int, bound_u, bound_v);
    lemma_abs_mul(u.y as int, v.y as int, bound_u, bound_v);
    lemma_abs_mul(u.z as int, v.z as int, bound_u, bound_v);
}

impl Default for Vec3 {
    /// The zero vector.
    fn default() -> (r: Self)
        ensures
            r == (Vec3 { x: 0, y: 0, z: 0 }),
    {
        Vec3 { x: 0, y: 0, z: 0 }
    }
}

impl Vec3 {
    pub fn new(x: i64, y: i64, z: i64) -> (r: Self)
        ensures
            r == (Vec3 { x, y, z }),
    {
        Vec3 { x, y, z }
    }

    pub fn set_x(&mut self, x: i64) -> (r: Self)
        ensures
            *final(self) == (Vec3 { x, ..*old(self) }),
            r == *final(self),
    {
        self.x = x;
        *self
    }

    pub fn set_y(&mut self, y: i64) -> (r: Self)
        ensures
            *final(self) == (Vec3 { y, ..*old(self) }),
            r == *final(self),
    {
        self.y = y;
        *self
    }

    pub fn set_z(&mut self, z: i64) -> (r: Self)
        ensures
            *final(self) == (Vec3 { z, ..*old(self) }),
            r == *final(self),
    {
        self.z = z;
        *self
    }

    /// Negation, component-wise.
    pub fn neg(&self) -> (r: Self)
        requires
            vbounded(*self, 0x7FFF_FFFF_FFFF_FFFF),
        ensures
            r.x == -self.x && r.y == -self.y && r.z == -self.z,
    {
        Vec3 { x: -self.x, y: -self.y, z: -self.z }
    }

    /// Sum, component-wise.
    pub fn add(&self, rhs: &Vec3) -> (r: Self)
        requires
            vbounded(*self, 0x3FFF_FFFF_FFFF_FFFF),
            vbounded(*rhs, 0x3FFF_FFFF_FFFF_FFFF),
        ensures
            r.x == self.x + rhs.x && r.y == self.y + rhs.y && r.z == self.z + rhs.z,
    {
        Vec3 { x: self.x + rhs.x, y: self.y + rhs.y, z: self.z + rhs.z }
    }

    /// Difference, component-wise.
    pub fn sub(&self, rhs: &Vec3) -> (r: Self)
        requires
            vbounded(*self, 0x3FFF_FFFF_FFFF_FFFF),
            vbounded(*rhs, 0x3FFF_FFFF_FFFF_FFFF),
        ensures
            r.x == self.x - rhs.x && r.y == self.y - rhs.y && r.z == self.z - rhs.z,
    {
        Vec3 { x: self.x - rhs.x, y: self.y - rhs.y, z: self.z - rhs.z }
    }

    /// Fixed-point product, component-wise (used for colour attenuation).
    /// The product of two channels inside [0, 1] stays inside [0, 1].
    pub fn mul(&self, rhs: &Vec3) -> (r: Self)
        requires
            vbounded(*self, 0x4000_0000),
            vbounded(*rhs, 0x4000_0000),
        ensures
            r.x == tdiv(self.x * rhs.x, SCALE as int),
            r.y == tdiv(self.y * rhs.y, SCALE as int),
            r.z == tdiv(self.z * rhs.z, SCALE as int),
            color_in_range(*self) && color_in_range(*rhs) ==> color_in_range(r),
    {
        proof {
            lemma_abs_mul(self.x as int, rhs.x as int, 0x4000_0000, 0x4000_0000);
            lemma_abs_mul(self.y as int, rhs.y as int, 0x4000_0000, 0x4000_0000);
            lemma_abs_mul(self.z as int, rhs.z as int, 0x4000_0000, 0x4000_0000);
            lemma_tdiv_bounds(self.x * rhs.x, SCALE as int);
            lemma_tdiv_bounds(self.y * rhs.y, SCALE as int);
            lemma_tdiv_bounds(self.z * rhs.z, SCALE as int);
            if color_in_range(*self) && color_in_range(*rhs) {
                assert(0 <= self.x * rhs.x <= SCALE * SCALE) by (nonlinear_arith)
                    requires
                        0 <= self.x <= SCALE,
                        0 <= rhs.x <= SCALE,
                ;
                assert(0 <= self.y * rhs.y <= SCALE * SCALE) by (nonlinear_arith)
                    requires
                        0 <= self.y <= SCALE,
                        0 <= rhs.y <= SCALE,
                ;
                assert(0 <= self.z * rhs.z <= SCALE * SCALE) by (nonlinear_arith)
                    requires
                        0 <= self.z <= SCALE,
                        0 <= rhs.z <= SCALE,
                ;
                lemma_tdiv_le(self.x * rhs.x, SCALE as int, SCALE as int);
                lemma_tdiv_le(self.y * rhs.y, SCALE as int, SCALE as int);
                lemma_tdiv_le(self.z * rhs.z, SCALE as int, SCALE as int);
                lemma_tdiv_sign(self.x * rhs.x, SCALE as int);
                lemma_tdiv_sign(self.y * rhs.y, SCALE as int);
                lemma_tdiv_sign(self.z * rhs.z, SCALE as int);
            }
        }
        Vec3 {
            x: tdiv64(self.x * rhs.x, SCALE),
            y: tdiv64(self.y * rhs.y, SCALE),
            z: tdiv64(self.z * rhs.z, SCALE),
        }
    }

    /// Fixed-point product with a scalar.
    pub fn mul_s(&self, k: i64) -> (r: Self)
        requires
            vbounded(*self, 0x4000_0000),
            iabs(k as int) <= 0x4000_0000,
        ensures
            r.x == tdiv(self.x * k, SCALE as int),
            r.y == tdiv(self.y * k, SCALE as int),
            r.z == tdiv(self.z * k, SCALE as int),
    {
        proof {
            lemma_abs_mul(self.x as int, k as int, 0x4000_0000, 0x4000_0000);
            lemma_abs_mul(self.y as int, k as int, 0x4000_0000, 0x4000_0000);
            lemma_abs_mul(self.z as int, k as int, 0x4000_0000, 0x4000_0000);
            lemma_tdiv_bounds(self.x * k, SCALE as int);
            lemma_tdiv_bounds(self.y * k, SCALE as int);
            lemma_tdiv_bounds(self.z * k, SCALE as int);
        }
        Vec3 { x: tdiv64(self.x * k, SCALE), y: tdiv64(self.y * k, SCALE), z: tdiv64(self.z * k, SCALE) }
    }

    /// Fixed-point quotient by a scalar.
    pub fn div_s(&self, k: i64) -> (r: Self)
        requires
            k != 0,
            vbounded(*self, 0x4000_0000_0000),
            iabs(k as int) <= 0x4000_0000_0000_0000,
        ensures
            r.x == tdiv(self.x * SCALE, k as int),
            r.y == tdiv(self.y * SCALE, k as int),
            r.z == tdiv(self.z * SCALE, k as int),
    {
        proof {
            lemma_abs_mul(self.x as int, SCALE as int, 0x4000_0000_0000, SCALE as int);
            lemma_abs_mul(self.y as int, SCALE as int, 0x4000_0000_0000, SCALE as int);
            lemma_abs_mul(self.z as int, SCALE as int, 0x4000_0000_0000, SCALE as int);
            lemma_tdiv_bounds(self.x * SCALE, k as int);
            lemma_tdiv_bounds(self.y * SCALE, k as int);
            lemma_tdiv_bounds(self.z * SCALE, k as int);
        }
        Vec3 { x: tdiv64(self.x * SCALE, k), y: tdiv64(self.y * SCALE, k), z: tdiv64(self.z * SCALE, k) }
    }

    /// The raw squared length: the inner product of the vector with itself,
    /// carrying twice the fixed-point scale.
    pub fn length_squared(&self) -> (r: i64)
        requires
            vbounded(*self, COORD_MAX as int),
        ensures
            r == dot3(*self, *self),
            0 <= r <= 3 * ((COORD_MAX as int) * (COORD_MAX as int)),
    {
        proof {
            lemma_dot3_bound(*self, *self, COORD_MAX as int, COORD_MAX as int);
            assert(self.x * self.x >= 0) by (nonlinear_arith);
            assert(self.y * self.y >= 0) by (nonlinear_arith);
            assert(self.z * self.z >= 0) by (nonlinear_arith);
        }
        self.x * self.x + self.y * self.y + self.z * self.z
    }

    /// The length at the fixed-point scale: the integer square root of the
    /// raw squared length.
    pub fn length(&self) -> (r: i64)
        requires
            vbounded(*self, COORD_MAX as int),
        ensures
            r == sqrt_floor(dot3(*self, *self)),
            is_sqrt_floor(dot3(*self, *self), r as int),
            0 <= r <= 0x4000_0000,
    {
        let ls = self.length_squared();
        let r = isqrt(ls as u128);
        proof {
            if r > 0x4000_0000 {
                assert((0x4000_0000 + 1) * (0x4000_0000 + 1) <= (r as int) * (r as int))
                    by (nonlinear_arith)
                    requires
                        r > 0x4000_0000,
                ;
                assert((r as int) * (r as int) <= ls as int);
                assert((0x4000_0000 + 1) * (0x4000_0000 + 1) == 0x1000_0000_8000_0001int)
                    by (nonlinear_arith);
                assert(3 * ((COORD_MAX as int) * (COORD_MAX as int)) == 0x0C00_0000_0000_0000int)
                    by (nonlinear_arith)
                    requires
                        COORD_MAX == 0x2000_0000,
                ;
                assert(false);
            }
        }
        r as i64
    }

    /// The unit vector in the direction of `v`, or zero for a zero vector.
    pub open spec fn unit_spec(v: Vec3) -> Vec3 {
        let l = sqrt_floor(dot3(v, v));
        if l == 0 {
            Vec3 { x: 0, y: 0, z: 0 }
        } else {
            Vec3 {
                x: tdiv(v.x * SCALE, l) as i64,
                y: tdiv(v.y * SCALE, l) as i64,
                z: tdiv(v.z * SCALE, l) as i64,
            }
        }
    }

    /// Scales the vector to (fixed-point) unit length; a zero vector stays
    /// zero. Every component of the result is bounded by one unit.
    pub fn unit_vector(&self) -> (r: Vec3)
        requires
            vbounded(*self, COORD_MAX as int),
        ensures
            r == Self::unit_spec(*self),
            vbounded(r, SCALE as int),
    {
        let len = self.length();
        if len == 0 {
            Vec3 { x: 0, y: 0, z: 0 }
        } else {
            proof {
                lemma_abs_mul(self.x as int, SCALE as int, COORD_MAX as int, SCALE as int);
                lemma_abs_mul(self.y as int, SCALE as int, COORD_MAX as int, SCALE as int);
                lemma_abs_mul(self.z as int, SCALE as int, COORD_MAX as int, SCALE as int);
                lemma_unit_component(*self, len as int, self.x as int);
                lemma_unit_component(*self, len as int, self.y as int);
                lemma_unit_component(*self, len as int, self.z as int);
            }
            Vec3 {
                x: tdiv64(self.x * SCALE, len),
                y: tdiv64(self.y * SCALE, len),
                z: tdiv64(self.z * SCALE, len),
            }
        }
    }

    /// True exactly when the vector is the zero vector (any nonzero
    /// fixed-point component is at least one quantum, far above the
    /// degeneracy threshold).
    pub fn near_zero(&self) -> (r: bool)
        ensures
            r == (*self == (Vec3 { x: 0, y: 0, z: 0 })),
    {
        self.x == 0 && self.y == 0 && self.z == 0
    }

    /// A vector with three independent uniform samples of [0, 1).
    pub fn rand_vec3_01() -> (r: Vec3)
        ensures
            0 <= r.x < SCALE && 0 <= r.y < SCALE && 0 <= r.z < SCALE,
    {
        Vec3::new(rand_01(), rand_01(), rand_01())
    }

    /// A vector with three independent uniform samples of [min_v, max_v).
    pub fn rand_vec3(min_v: i64, max_v: i64) -> (r: Vec3)
        requires
            min_v < max_v,
        ensures
            min_v <= r.x < max_v && min_v <= r.y < max_v && min_v <= r.z < max_v,
    {
        Vec3::new(
            rand_double(min_v, max_v),
            rand_double(min_v, max_v),
            rand_double(min_v, max_v),
        )
    }

    /// A component of the vector by axis index; other indices read zero.
    pub open spec fn comp(v: Vec3, axis: int) -> i64 {
        if axis == 0 {
            v.x
        } else if axis == 1 {
            v.y
        } else if axis == 2 {
            v.z
        } else {
            0
        }
    }

    /// Reads a component by axis index.
    pub fn index(&self, axis: i32) -> (r: i64)
        ensures
            r == Self::comp(*self, axis as int),
    {
        match axis {
            0 => self.x,
            1 => self.y,
            2 => self.z,
            _ => 0,
        }
    }
}

/// A component of a unit-scaled vector cannot exceed one unit: the rounded
/// square root of the squared length dominates every component magnitude.
proof fn lemma_unit_component(v: Vec3, l: int, c: int)
    requires
        is_sqrt_floor(dot3(v, v), l),
        l >= 1,
        c == v.x || c == v.y || c == v.z,
    ensures
        iabs(tdiv(c * SCALE, l)) <= SCALE as int,
{
    assert(c * c <= dot3(v, v)) by (nonlinear_arith)
        requires
            c == v.x || c == v.y || c == v.z,
            dot3(v, v) == v.x * v.x + v.y * v.y + v.z * v.z,
    ;
    assert(iabs(c) <= l) by (nonlinear_arith)
        requires
            c * c <= dot3(v, v),
            dot3(v, v) < (l + 1) * (l + 1),
            l >= 1,
    ;
    assert(iabs(c * SCALE) <= (SCALE as int) * l) by (nonlinear_arith)
        requires
            iabs(c) <= l,
            l >= 1,
    ;
    lemma_tdiv_le(c * SCALE, l, SCALE as int);
}

/// Negating one argument negates the raw inner product.
pub proof fn lemma_dot3_neg(u: Vec3, n: Vec3, v: Vec3)
    requires
        v.x == -u.x,
        v.y == -u.y,
        v.z == -u.z,
    ensures
        dot3(v, n) == -dot3(u, n),
{
    assert(v.x * n.x == -(u.x * n.x)) by (nonlinear_arith)
        requires
            v.x == -u.x,
    ;
    assert(v.y * n.y == -(u.y * n.y)) by (nonlinear_arith)
        requires
            v.y == -u.y,
    ;
    assert(v.z * n.z == -(u.z * n.z)) by (nonlinear_arith)
        requires
            v.z == -u.z,
    ;
}

/// The raw inner product of two vectors (twice the fixed-point scale).
pub fn dot(u: &Vec3, v: &Vec3) -> (r: i64)
    requires
        vbounded(*u, 0x4000_0000),
        vbounded(*v, 0x4000_0000),
    ensures
        r == dot3(*u, *v),
{
    proof {
        lemma_dot3_bound(*u, *v, 0x4000_0000, 0x4000_0000);
        lemma_abs_mul(u.x as int, v.x as int, 0x4000_0000, 0x4000_0000);
        lemma_abs_mul(u.y as int, v.y as int, 0x4000_0000, 0x4000_0000);
        lemma_abs_mul(u.z as int, v.z as int, 0x4000_0000, 0x4000_0000);
    }
    u.x * v.x + u.y * v.y + u.z * v.z
}

/// The fixed-point cross product.
pub fn cross(u: &Vec3, v: &Vec3) -> (r: Vec3)
    requires
        vbounded(*u, 0x4000_0000),
        vbounded(*v, 0x4000_0000),
    ensures
        r.x == tdiv(u.y * v.z - u.z * v.y, SCALE as int),
        r.y == tdiv(u.z * v.x - u.x * v.z, SCALE as int),
        r.z == tdiv(u.x * v.y - u.y * v.x, SCALE as int),
{
    proof {
        lemma_abs_mul(u.y as int, v.z as int, 0x4000_0000, 0x4000_0000);
        lemma_abs_mul(u.z as int, v.y as int, 0x4000_0000, 0x4000_0000);
        lemma_abs_mul(u.z as int, v.x as int, 0x4000_0000, 0x4000_0000);
        lemma_abs_mul(u.x as int, v.z as int, 0x4000_0000, 0x4000_0000);
        lemma_abs_mul(u.x as int, v.y as int, 0x4000_0000, 0x4000_0000);
        lemma_abs_mul(u.y as int, v.x as int, 0x4000_0000, 0x4000_0000);
        lemma_tdiv_bounds(u.y * v.z - u.z * v.y, SCALE as int);
        lemma_tdiv_bounds(u.z * v.x - u.x * v.z, SCALE as int);
        lemma_tdiv_bounds(u.x * v.y - u.y * v.x, SCALE as int);
    }
    Vec3 {
        x: tdiv64(u.y * v.z - u.z * v.y, SCALE),
        y: tdiv64(u.z * v.x - u.x * v.z, SCALE),
        z: tdiv64(u.x * v.y - u.y * v.x, SCALE),
    }
}

/// A rejection-sampled point strictly inside the unit sphere.
pub fn random_in_unit_sphere() -> (r: Vec3)
    ensures
        dot3(r, r) < (SCALE as int) * (SCALE as int),
        vbounded(r, SCALE as int),
{
    let mut tries: u32 = 0;
    while tries < 64
        decreases 64 - tries,
    {
        let p = Vec3::rand_vec3(-SCALE, SCALE);
        proof {
            lemma_dot3_bound(p, p, SCALE as int, SCALE as int);
        }
        let ls = dot(&p, &p);
        if ls < SCALE * SCALE {
            return p;
        }
        tries = tries + 1;
    }
    // A run of rejections this long is vanishingly unlikely; fall back to a
    // fixed interior point rather than loop without a bound.
    let p = Vec3 { x: 32768, y: 0, z: 0 };
    proof {
        assert(dot3(p, p) == 32768 * 32768 + 0 * 0 + 0 * 0);
        assert(32768 * 32768 + 0 * 0 + 0 * 0 < (SCALE as int) * (SCALE as int)) by (nonlinear_arith);
    }
    p
}

/// A random direction of (fixed-point) unit length: the unit scaling of a
/// point drawn in the unit sphere. Draws shorter than half a unit are
/// resampled, so the scaling never degenerates (and in particular the
/// result is never the zero vector); after a vanishingly unlikely run of
/// rejections a fixed interior point stands in for the draw.
pub fn random_unit_vector() -> (r: Vec3)
    ensures
        vbounded(r, SCALE as int),
        exists|p: Vec3|
            0x4000_0000 <= dot3(p, p) < (SCALE as int) * (SCALE as int) && r == #[trigger] Vec3::unit_spec(p),
{
    let mut tries: u32 = 0;
    while tries < 64
        decreases 64 - tries,
    {
        let p = Vec3::rand_vec3(-SCALE, SCALE);
        proof {
            lemma_dot3_bound(p, p, SCALE as int, SCALE as int);
        }
        let ls = dot(&p, &p);
        if 0x4000_0000 <= ls && ls < SCALE * SCALE {
            let u = p.unit_vector();
            proof {
                assert(u == Vec3::unit_spec(p));
            }
            return u;
        }
        tries = tries + 1;
    }
    let p = Vec3 { x: 32768, y: 0, z: 0 };
    proof {
        assert(dot3(p, p) == 32768 * 32768 + 0 * 0 + 0 * 0);
        assert(32768 * 32768 + 0 * 0 + 0 * 0 == 0x4000_0000) by (nonlinear_arith);
    }
    let u = p.unit_vector();
    proof {
        assert(u == Vec3::unit_spec(p));
    }
    u
}

/// A random point in the unit sphere, flipped into the hemisphere of the
/// given normal; flipping preserves the length, so the result stays
/// strictly inside the unit sphere.
pub fn random_in_hemisphere(normal: &Vec3) -> (r: Vec3)
    requires
        vbounded(*normal, 0x4000_0000),
    ensures
        vbounded(r, SCALE as int),
        dot3(r, *normal) >= 0,
        dot3(r, r) < (SCALE as int) * (SCALE as int),
{
    let in_unit_sphere = random_in_unit_sphere();
    if dot(&in_unit_sphere, normal) > 0 {
        in_unit_sphere
    } else {
        let flipped = in_unit_sphere.neg();
        proof {
            lemma_dot3_neg(in_unit_sphere, *normal, flipped);
            lemma_dot3_neg(in_unit_sphere, flipped, flipped);
            lemma_dot3_neg(in_unit_sphere, in_unit_sphere, flipped);
            assert(dot3(flipped, in_unit_sphere) == dot3(in_unit_sphere, flipped));
            assert(dot3(flipped, flipped) == dot3(in_unit_sphere, in_unit_sphere));
        }
        flipped
    }
}

/// A rejection-sampled point strictly inside the unit disk (z = 0).
pub fn random_in_unit_disk() -> (r: Vec3)
    ensures
        r.z == 0,
        dot3(r, r) < (SCALE as int) * (SCALE as int),
        vbounded(r, SCALE as int),
{
    let mut tries: u32 = 0;
    while tries < 64
        decreases 64 - tries,
    {
        let mut p = Vec3::default();
        p.set_x(rand_double(-SCALE, SCALE));
        p.set_y(rand_double(-SCALE, SCALE));
        proof {
            lemma_dot3_bound(p, p, SCALE as int, SCALE as int);
        }
        let ls = dot(&p, &p);
        if ls < SCALE * SCALE {
            return p;
        }
        tries = tries + 1;
    }
    // A run of rejections this long is vanishingly unlikely; fall back to a
    // fixed interior point rather than loop without a bound.
    let p = Vec3 { x: 32768, y: 0, z: 0 };
    proof {
        assert(dot3(p, p) == 32768 * 32768 + 0 * 0 + 0 * 0);
        assert(32768 * 32768 + 0 * 0 + 0 * 0 < (SCALE as int) * (SCALE as int)) by (nonlinear_arith);
    }
    p
}

/// The inner product of a vector with itself is nonnegative.
pub proof fn lemma_dot3_self_nonneg(v: Vec3)
    ensures
        dot3(v, v) >= 0,
{
    assert(v.x * v.x >= 0) by (nonlinear_arith);
    assert(v.y * v.y >= 0) by (nonlinear_arith);
    assert(v.z * v.z >= 0) by (nonlinear_arith);
}

/// The mirror image of `v` about the normal `n`:
/// `v - 2 * dot(v, n) * n` at the fixed-point scale.
pub open spec fn reflect_spec(v: Vec3, n: Vec3) -> Vec3 {
    let dvn = dot3(v, n);
    Vec3 {
        x: (v.x - tdiv(2 * dvn * n.x, (SCALE * SCALE) as int)) as i64,
        y: (v.y - tdiv(2 * dvn * n.y, (SCALE * SCALE) as int)) as i64,
        z: (v.z - tdiv(2 * dvn * n.z, (SCALE * SCALE) as int)) as i64,
    }
}

/// Mirror-reflects `v` about the normal `n`.
pub fn reflect(v: Vec3, n: Vec3) -> (r: Vec3)
    requires
        vbounded(v, 0x20000),
        vbounded(n, 0x20000),
    ensures
        r == reflect_spec(v, n),
        vbounded(r, 0x80_0000),
{
    proof {
        lemma_abs_mul(v.x as int, n.x as int, 0x20000, 0x20000);
        lemma_abs_mul(v.y as int, n.y as int, 0x20000, 0x20000);
        lemma_abs_mul(v.z as int, n.z as int, 0x20000, 0x20000);
        lemma_dot3_bound(v, n, 0x20000, 0x20000);
        lemma_reflect_term(v, n, n.x as int);
        lemma_reflect_term(v, n, n.y as int);
        lemma_reflect_term(v, n, n.z as int);
    }
    let dvn = v.x * n.x + v.y * n.y + v.z * n.z;
    Vec3 {
        x: v.x - tdiv64(2 * dvn * n.x, SCALE * SCALE),
        y: v.y - tdiv64(2 * dvn * n.y, SCALE * SCALE),
        z: v.z - tdiv64(2 * dvn * n.z, SCALE * SCALE),
    }
}

/// Bounds one component correction term of a reflection.
proof fn lemma_reflect_term(v: Vec3, n: Vec3, c: int)
    requires
        vbounded(v, 0x20000),
        vbounded(n, 0x20000),
        iabs(c) <= 0x20000,
    ensures
        iabs(2 * dot3(v, n) * c) <= 0x30_0000_0000_0000,
        iabs(tdiv(2 * dot3(v, n) * c, (SCALE * SCALE) as int)) <= 0x30_0000,
{
    lemma_dot3_bound(v, n, 0x20000, 0x20000);
    lemma_abs_mul(2 * dot3(v, n), c, 0x18_0000_0000, 0x20000);
    assert((SCALE * SCALE) as int == 0x1_0000_0000int);
    assert(0x30_0000int * 0x1_0000_0000int == 0x30_0000_0000_0000int) by (nonlinear_arith);
    lemma_tdiv_le(2 * dot3(v, n) * c, (SCALE * SCALE) as int, 0x30_0000);
}

/// The refracted direction of `uv` through a surface with normal `n` and
/// refraction ratio `etai_over_etat`, at the fixed-point scale: the
/// perpendicular part `(uv + n * cos) * ratio` plus the parallel part
/// `-n * sqrt(1 - |perp|^2)` (the root clamped at zero when the
/// perpendicular part is overlong).
pub open spec fn refract_spec(uv: Vec3, n: Vec3, etai_over_etat: i64) -> Vec3 {
    let c_raw = -dot3(uv, n);
    let cos_theta = if tdiv(c_raw, SCALE as int) > SCALE { SCALE as int } else { tdiv(c_raw, SCALE as int) };
    let px = (uv.x + tdiv(n.x * cos_theta, SCALE as int)) * etai_over_etat;
    let py = (uv.y + tdiv(n.y * cos_theta, SCALE as int)) * etai_over_etat;
    let pz = (uv.z + tdiv(n.z * cos_theta, SCALE as int)) * etai_over_etat;
    let perp = Vec3 {
        x: tdiv(px, SCALE as int) as i64,
        y: tdiv(py, SCALE as int) as i64,
        z: tdiv(pz, SCALE as int) as i64,
    };
    let shortfall = SCALE * SCALE - dot3(perp, perp);
    let par = if shortfall >= 0 { sqrt_floor(shortfall) } else { 0 };
    Vec3 {
        x: (perp.x - tdiv(n.x * par, SCALE as int)) as i64,
        y: (perp.y - tdiv(n.y * par, SCALE as int)) as i64,
        z: (perp.z - tdiv(n.z * par, SCALE as int)) as i64,
    }
}

/// Refracts `uv` through a surface with normal `n` and refraction ratio
/// `etai_over_etat`.
pub fn refract(uv: Vec3, n: Vec3, etai_over_etat: i64) -> (r: Vec3)
    requires
        vbounded(uv, 0x20000),
        vbounded(n, 0x20000),
        0 <= etai_over_etat <= 0x40000,
    ensures
        r == refract_spec(uv, n, etai_over_etat),
        vbounded(r, 0x200_0000),
{
    proof {
        lemma_abs_mul(uv.x as int, n.x as int, 0x20000, 0x20000);
        lemma_abs_mul(uv.y as int, n.y as int, 0x20000, 0x20000);
        lemma_abs_mul(uv.z as int, n.z as int, 0x20000, 0x20000);
        lemma_dot3_bound(uv, n, 0x20000, 0x20000);
        lemma_tdiv_bounds(-dot3(uv, n), SCALE as int);
        assert(0xC_0000int * (SCALE as int) == 0xC_0000_0000int) by (nonlinear_arith)
            requires
                SCALE == 65536,
        ;
        lemma_tdiv_le(-dot3(uv, n), SCALE as int, 0xC_0000);
    }
    let c_raw = -(uv.x * n.x + uv.y * n.y + uv.z * n.z);
    let ct = tdiv64(c_raw, SCALE);
    let cos_theta = if ct > SCALE { SCALE } else { ct };
    proof {
        lemma_refract_inner(n.x as int, cos_theta as int);
        lemma_refract_inner(n.y as int, cos_theta as int);
        lemma_refract_inner(n.z as int, cos_theta as int);
        lemma_refract_perp(uv.x as int, tdiv(n.x * cos_theta, SCALE as int), etai_over_etat as int);
        lemma_refract_perp(uv.y as int, tdiv(n.y * cos_theta, SCALE as int), etai_over_etat as int);
        lemma_refract_perp(uv.z as int, tdiv(n.z * cos_theta, SCALE as int), etai_over_etat as int);
    }
    let perp = Vec3 {
        x: tdiv64((uv.x + tdiv64(n.x * cos_theta, SCALE)) * etai_over_etat, SCALE),
        y: tdiv64((uv.y + tdiv64(n.y * cos_theta, SCALE)) * etai_over_etat, SCALE),
        z: tdiv64((uv.z + tdiv64(n.z * cos_theta, SCALE)) * etai_over_etat, SCALE),
    };
    proof {
        lemma_dot3_bound(perp, perp, 0x100_0000, 0x100_0000);
        lemma_dot3_self_nonneg(perp);
    }
    let pls = dot(&perp, &perp);
    let shortfall = SCALE * SCALE - pls;
    let par: i64 = if shortfall >= 0 {
        let s = isqrt(shortfall as u128);
        proof {
            if (s as int) * (s as int) > (SCALE * SCALE) as int {
                assert(false);
            }
            if s as int > SCALE as int {
                assert((s as int) * (s as int) > (SCALE as int) * (SCALE as int))
                    by (nonlinear_arith)
                    requires
                        s as int > SCALE as int,
                        SCALE >= 1,
                ;
                assert(false);
            }
        }
        s as i64
    } else {
        0
    };
    proof {
        lemma_abs_mul(n.x as int, par as int, 0x20000, SCALE as int);
        lemma_abs_mul(n.y as int, par as int, 0x20000, SCALE as int);
        lemma_abs_mul(n.z as int, par as int, 0x20000, SCALE as int);
        lemma_tdiv_le(n.x * par, SCALE as int, 0x20000);
        lemma_tdiv_le(n.y * par, SCALE as int, 0x20000);
        lemma_tdiv_le(n.z * par, SCALE as int, 0x20000);
    }
    Vec3 {
        x: perp.x - tdiv64(n.x * par, SCALE),
        y: perp.y - tdiv64(n.y * par, SCALE),
        z: perp.z - tdiv64(n.z * par, SCALE),
    }
}

/// Bounds the `n * cos` correction inside a refraction.
proof fn lemma_refract_inner(nc: int, cos_theta: int)
    requires
        iabs(nc) <= 0x20000,
        iabs(cos_theta) <= 0x10_0000,
    ensures
        iabs(nc * cos_theta) <= 0x20_0000_0000,
        iabs(tdiv(nc * cos_theta, SCALE as int)) <= 0x20_0000,
{
    lemma_abs_mul(nc, cos_theta, 0x20000, 0x10_0000);
    assert(0x20_0000int * (SCALE as int) == 0x20_0000_0000int) by (nonlinear_arith)
        requires
            SCALE == 65536,
    ;
    lemma_tdiv_le(nc * cos_theta, SCALE as int, 0x20_0000);
}

/// Bounds one component of the perpendicular part of a refraction.
proof fn lemma_refract_perp(u: int, q: int, ratio: int)
    requires
        iabs(u) <= 0x20000,
        iabs(q) <= 0x20_0000,
        0 <= ratio <= 0x40000,
    ensures
        iabs((u + q) * ratio) <= 0x100_0000_0000,
        iabs(tdiv((u + q) * ratio, SCALE as int)) <= 0x100_0000,
{
    lemma_abs_mul(u + q, ratio, 0x22_0000, 0x40000);
    assert(0x22_0000int * 0x40000int <= 0x100_0000_0000int) by (nonlinear_arith);
    assert(0x100_0000int * (SCALE as int) == 0x100_0000_0000int) by (nonlinear_arith)
        requires
            SCALE == 65536,
    ;
    lemma_tdiv_le((u + q) * ratio, SCALE as int, 0x100_0000);
}


/// Distributing a common factor over a three-term sum.
proof fn lemma_dist3_factor(e: int, u1: int, u2: int, u3: int)
    ensures
        e * u1 + e * u2 + e * u3 == e * (u1 + u2 + u3),
        u1 * e + u2 * e + u3 * e == (u1 + u2 + u3) * e,
{
    assert(e * u1 + e * u2 + e * u3 == e * (u1 + u2 + u3)) by (nonlinear_arith);
    assert(u1 * e + u2 * e + u3 * e == (u1 + u2 + u3) * e) by (nonlinear_arith);
}

/// Summing a common left factor out of three products.
proof fn lemma_sum3_left(e: int, a1: int, a2: int, a3: int, b1: int, b2: int, b3: int)
    ensures
        (e * a1) * b1 + (e * a2) * b2 + (e * a3) * b3 == e * (b1 * a1 + b2 * a2 + b3 * a3),
{
    assert((e * a1) * b1 == e * (b1 * a1)) by (nonlinear_arith);
    assert((e * a2) * b2 == e * (b2 * a2)) by (nonlinear_arith);
    assert((e * a3) * b3 == e * (b3 * a3)) by (nonlinear_arith);
    lemma_dist3_factor(e, b1 * a1, b2 * a2, b3 * a3);
}

/// Summing a common right factor out of three products.
proof fn lemma_sum3_right(e: int, a1: int, a2: int, a3: int, b1: int, b2: int, b3: int)
    ensures
        (a1 * e) * b1 + (a2 * e) * b2 + (a3 * e) * b3 == (b1 * a1 + b2 * a2 + b3 * a3) * e,
{
    assert((a1 * e) * b1 == (b1 * a1) * e) by (nonlinear_arith);
    assert((a2 * e) * b2 == (b2 * a2) * e) by (nonlinear_arith);
    assert((a3 * e) * b3 == (b3 * a3) * e) by (nonlinear_arith);
    lemma_dist3_factor(e, b1 * a1, b2 * a2, b3 * a3);
}

/// Summing a common squared left factor out of three squares.
proof fn lemma_sum3_sq_left(e: int, a1: int, a2: int, a3: int)
    ensures
        (e * a1) * (e * a1) + (e * a2) * (e * a2) + (e * a3) * (e * a3) == (e * e) * (a1 * a1 + a2
            * a2 + a3 * a3),
{
    assert((e * a1) * (e * a1) == (e * e) * (a1 * a1)) by (nonlinear_arith);
    assert((e * a2) * (e * a2) == (e * e) * (a2 * a2)) by (nonlinear_arith);
    assert((e * a3) * (e * a3) == (e * e) * (a3 * a3)) by (nonlinear_arith);
    lemma_dist3_factor(e * e, a1 * a1, a2 * a2, a3 * a3);
}

/// Summing a common squared right factor out of three squares.
proof fn lemma_sum3_sq_right(e: int, a1: int, a2: int, a3: int)
    ensures
        (a1 * e) * (a1 * e) + (a2 * e) * (a2 * e) + (a3 * e) * (a3 * e) == (a1 * a1 + a2 * a2 + a3
            * a3) * (e * e),
{
    assert((a1 * e) * (a1 * e) == (a1 * a1) * (e * e)) by (nonlinear_arith);
    assert((a2 * e) * (a2 * e) == (a2 * a2) * (e * e)) by (nonlinear_arith);
    assert((a3 * e) * (a3 * e) == (a3 * a3) * (e * e)) by (nonlinear_arith);
    lemma_dist3_factor(e * e, a1 * a1, a2 * a2, a3 * a3);
}

/// Multiplying a product equation by a factor.
proof fn lemma_eq_mul(k: int, s: int, t: int, c: int)
    requires
        k * s == t,
    ensures
        (k * c) * s == t * c,
{
    assert((k * c) * s == (k * s) * c) by (nonlinear_arith);
}

/// Squaring a product equation.
proof fn lemma_sq_eq(k: int, s: int, t: int)
    requires
        k * s == t,
    ensures
        (k * k) * (s * s) == t * t,
{
    assert((k * k) * (s * s) == (k * s) * (k * s)) by (nonlinear_arith);
}

/// Distributing a factor over a three-term sum.
proof fn lemma_dist3(a1: int, a2: int, a3: int, m: int)
    ensures
        (a1 + a2 + a3) * m == a1 * m + a2 * m + a3 * m,
{
    assert((a1 + a2 + a3) * m == a1 * m + a2 * m + a3 * m) by (nonlinear_arith);
}

/// Cancelling a positive factor from an equation.
proof fn lemma_mul_cancel(u: int, w: int, m: int)
    requires
        u * m == w * m,
        m > 0,
    ensures
        u == w,
{
    assert(u == w) by (nonlinear_arith)
        requires
            u * m == w * m,
            m > 0,
    ;
}

/// The mirror law of reflection, exactly: about a unit normal, and where
/// the fixed-point corrections divide out exactly (the witnesses `kx`,
/// `ky`, `kz` are the exact correction components), the reflected vector
/// meets the normal at the incoming angle — its inner product with the
/// normal is exactly negated — and its length is exactly preserved, so the
/// angle of reflection equals the angle of incidence.
pub proof fn lemma_reflect_mirror(v: Vec3, n: Vec3, kx: int, ky: int, kz: int)
    requires
        vbounded(v, 0x20000),
        vbounded(n, 0x20000),
        dot3(n, n) == (SCALE * SCALE) as int,
        kx * ((SCALE * SCALE) as int) == 2 * dot3(v, n) * n.x,
        ky * ((SCALE * SCALE) as int) == 2 * dot3(v, n) * n.y,
        kz * ((SCALE * SCALE) as int) == 2 * dot3(v, n) * n.z,
    ensures
        dot3(reflect_spec(v, n), n) == -dot3(v, n),
        dot3(reflect_spec(v, n), reflect_spec(v, n)) == dot3(v, v),
{
    let d = dot3(v, n);
    let s2 = (SCALE * SCALE) as int;
    lemma_tdiv_mul_cancel(kx, s2);
    lemma_tdiv_mul_cancel(ky, s2);
    lemma_tdiv_mul_cancel(kz, s2);
    assert(tdiv(2 * d * n.x, s2) == kx);
    assert(tdiv(2 * d * n.y, s2) == ky);
    assert(tdiv(2 * d * n.z, s2) == kz);
    lemma_reflect_term(v, n, n.x as int);
    lemma_reflect_term(v, n, n.y as int);
    lemma_reflect_term(v, n, n.z as int);
    let rr = reflect_spec(v, n);
    assert(rr.x == v.x - kx && rr.y == v.y - ky && rr.z == v.z - kz);
    // Summed against the normal, the correction contributes exactly twice
    // the projection.
    let s_kn = kx * n.x + ky * n.y + kz * n.z;
    lemma_dist3(kx * n.x, ky * n.y, kz * n.z, s2);
    lemma_eq_mul(kx, s2, 2 * d * n.x, n.x as int);
    lemma_eq_mul(ky, s2, 2 * d * n.y, n.y as int);
    lemma_eq_mul(kz, s2, 2 * d * n.z, n.z as int);
    lemma_sum3_left(2 * d, n.x as int, n.y as int, n.z as int, n.x as int, n.y as int, n.z as int);
    assert(s_kn * s2 == (2 * d) * s2) by (nonlinear_arith)
        requires
            s_kn * s2 == 2 * d * (n.x * n.x + n.y * n.y + n.z * n.z),
            n.x * n.x + n.y * n.y + n.z * n.z == s2,
    ;
    lemma_mul_cancel(s_kn, 2 * d, s2);
    assert((v.x - kx) * n.x == v.x * n.x - kx * n.x) by (nonlinear_arith);
    assert((v.y - ky) * n.y == v.y * n.y - ky * n.y) by (nonlinear_arith);
    assert((v.z - kz) * n.z == v.z * n.z - kz * n.z) by (nonlinear_arith);
    assert(dot3(rr, n) == -d);
    // Summed against the incoming vector, it contributes twice the squared
    // projection; against itself, four times: the two cancel exactly.
    let x = kx * v.x + ky * v.y + kz * v.z;
    lemma_dist3(kx * v.x, ky * v.y, kz * v.z, s2);
    lemma_eq_mul(kx, s2, 2 * d * n.x, v.x as int);
    lemma_eq_mul(ky, s2, 2 * d * n.y, v.y as int);
    lemma_eq_mul(kz, s2, 2 * d * n.z, v.z as int);
    lemma_sum3_left(2 * d, n.x as int, n.y as int, n.z as int, v.x as int, v.y as int, v.z as int);
    assert(x * s2 == (2 * d) * d);
    let y = kx * kx + ky * ky + kz * kz;
    lemma_dist3(kx * kx, ky * ky, kz * kz, s2 * s2);
    lemma_sq_eq(kx, s2, 2 * d * n.x);
    lemma_sq_eq(ky, s2, 2 * d * n.y);
    lemma_sq_eq(kz, s2, 2 * d * n.z);
    lemma_sum3_sq_left(2 * d, n.x as int, n.y as int, n.z as int);
    assert(y * (s2 * s2) == ((2 * d) * (2 * d)) * s2);
    assert((y * s2) * s2 == ((2 * d) * (2 * d)) * s2) by (nonlinear_arith)
        requires
            y * (s2 * s2) == ((2 * d) * (2 * d)) * s2,
    ;
    lemma_mul_cancel(y * s2, (2 * d) * (2 * d), s2);
    assert(y * s2 == (2 * x) * s2) by (nonlinear_arith)
        requires
            y * s2 == (2 * d) * (2 * d),
            x * s2 == (2 * d) * d,
    ;
    lemma_mul_cancel(y, 2 * x, s2);
    assert((v.x - kx) * (v.x - kx) == v.x * v.x - 2 * (kx * v.x) + kx * kx) by (nonlinear_arith);
    assert((v.y - ky) * (v.y - ky) == v.y * v.y - 2 * (ky * v.y) + ky * ky) by (nonlinear_arith);
    assert((v.z - kz) * (v.z - kz) == v.z * v.z - 2 * (kz * v.z) + kz * kz) by (nonlinear_arith);
    assert(dot3(rr, rr) == dot3(v, v) - 2 * x + y);
    assert(dot3(rr, rr) == dot3(v, v));
}

/// A refraction ratio of one passes the ray straight through, exactly:
/// with unit vectors, a front-side incidence, and fixed-point corrections
/// that divide out exactly (`cos` is the exact scaled cosine, `qx`, `qy`,
/// `qz` the exact correction components), the refracted direction equals
/// the incoming direction.
pub proof fn lemma_refract_identity(uv: Vec3, n: Vec3, cos: int, qx: int, qy: int, qz: int)
    requires
        vbounded(uv, 0x20000),
        vbounded(n, 0x20000),
        dot3(uv, uv) == (SCALE * SCALE) as int,
        dot3(n, n) == (SCALE * SCALE) as int,
        0 <= cos <= SCALE as int,
        cos * (SCALE as int) == -dot3(uv, n),
        qx * (SCALE as int) == n.x * cos,
        qy * (SCALE as int) == n.y * cos,
        qz * (SCALE as int) == n.z * cos,
    ensures
        refract_spec(uv, n, SCALE) == uv,
{
    let sc = SCALE as int;
    let d = dot3(uv, n);
    lemma_tdiv_mul_cancel(cos, sc);
    assert(tdiv(-d, sc) == cos);
    lemma_tdiv_mul_cancel(qx, sc);
    lemma_tdiv_mul_cancel(qy, sc);
    lemma_tdiv_mul_cancel(qz, sc);
    assert(tdiv(n.x * cos, sc) == qx);
    assert(tdiv(n.y * cos, sc) == qy);
    assert(tdiv(n.z * cos, sc) == qz);
    lemma_tdiv_mul_cancel(uv.x + qx, sc);
    lemma_tdiv_mul_cancel(uv.y + qy, sc);
    lemma_tdiv_mul_cancel(uv.z + qz, sc);
    // Bounds: the corrections are the normal scaled by at most one unit,
    // so every intermediate stays far inside the machine range.
    assert(iabs(qx) <= 0x20000 && iabs(qy) <= 0x20000 && iabs(qz) <= 0x20000) by (nonlinear_arith)
        requires
            qx * sc == n.x * cos,
            qy * sc == n.y * cos,
            qz * sc == n.z * cos,
            0 <= cos <= sc,
            sc == 65536,
            iabs(n.x as int) <= 0x20000,
            iabs(n.y as int) <= 0x20000,
            iabs(n.z as int) <= 0x20000,
    ;
    let perp = Vec3 { x: (uv.x + qx) as i64, y: (uv.y + qy) as i64, z: (uv.z + qz) as i64 };
    // The perpendicular part misses unit length by exactly the squared
    // cosine.
    let x = qx * uv.x + qy * uv.y + qz * uv.z;
    lemma_dist3(qx * uv.x, qy * uv.y, qz * uv.z, sc);
    lemma_eq_mul(qx, sc, n.x * cos, uv.x as int);
    lemma_eq_mul(qy, sc, n.y * cos, uv.y as int);
    lemma_eq_mul(qz, sc, n.z * cos, uv.z as int);
    lemma_sum3_right(cos, n.x as int, n.y as int, n.z as int, uv.x as int, uv.y as int, uv.z as int);
    assert(x * sc == d * cos);
    let y = qx * qx + qy * qy + qz * qz;
    lemma_dist3(qx * qx, qy * qy, qz * qz, sc * sc);
    lemma_sq_eq(qx, sc, n.x * cos);
    lemma_sq_eq(qy, sc, n.y * cos);
    lemma_sq_eq(qz, sc, n.z * cos);
    lemma_sum3_sq_right(cos, n.x as int, n.y as int, n.z as int);
    assert(y * (sc * sc) == (sc * sc) * (cos * cos));
    assert((y * sc) * sc == ((sc * cos) * cos) * sc) by (nonlinear_arith)
        requires
            y * (sc * sc) == (sc * sc) * (cos * cos),
    ;
    lemma_mul_cancel(y * sc, (sc * cos) * cos, sc);
    assert((uv.x + qx) * (uv.x + qx) == uv.x * uv.x + 2 * (qx * uv.x) + qx * qx)
        by (nonlinear_arith);
    assert((uv.y + qy) * (uv.y + qy) == uv.y * uv.y + 2 * (qy * uv.y) + qy * qy)
        by (nonlinear_arith);
    assert((uv.z + qz) * (uv.z + qz) == uv.z * uv.z + 2 * (qz * uv.z) + qz * qz)
        by (nonlinear_arith);
    assert(dot3(perp, perp) == sc * sc + 2 * x + y);
    // 2 * x * sc == 2 * d * cos == -2 * cos * cos * sc; cancel sc.
    assert((2 * x) * sc == ((-2) * (cos * cos)) * sc) by (nonlinear_arith)
        requires
            x * sc == d * cos,
            cos * sc == -d,
    ;
    lemma_mul_cancel(2 * x, (-2) * (cos * cos), sc);
    assert((y * sc) == ((sc * cos) * cos));
    assert(y == cos * cos) by (nonlinear_arith)
        requires
            y * sc == (sc * cos) * cos,
            sc > 0,
    ;
    let shortfall = SCALE * SCALE - dot3(perp, perp);
    assert(shortfall == cos * cos);
    assert(is_sqrt_floor(cos * cos, cos)) by (nonlinear_arith)
        requires
            0 <= cos,
    ;
    lemma_sqrt_floor_is(cos * cos, cos);
    assert(refract_spec(uv, n, SCALE) == uv);
}

} // verus!
