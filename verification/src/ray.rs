use crate::rtweekend::{iabs, tdiv, tdiv128, COORD_MAX, INFINITY, SCALE};
use crate::vec3::{lemma_abs_mul, lemma_tdiv_le, vbounded, Point3, Vec3};
use vstd::prelude::*;

verus! {

/// An immutable ray: origin point, direction vector, and the time it was
/// cast (carried for time-varying geometry; inert for the primitives here).
#[derive(Clone, Copy, PartialEq, Eq, Structural, Debug)]
pub struct Ray {
    pub origin: Point3,
    pub direction: Vec3,
    pub time: i64,
}

impl Ray {
    pub fn ray(origin: Point3, direction: Vec3, time: i64) -> (r: Self)
        ensures
            r == (Ray { origin, direction, time }),
    {
        Ray { origin, direction, time }
    }

    pub fn origin(&self) -> (r: &Point3)
        ensures
            *r == self.origin,
    {
        &self.origin
    }

    pub fn direction(&self) -> (r: &Vec3)
        ensures
            *r == self.direction,
    {
        &self.direction
    }

    pub fn time(&self) -> (r: i64)
        ensures
            r == self.time,
    {
        self.time
    }

    /// A ray origin and direction the intersection routines accept.
    pub open spec fn wf(self) -> bool {
        vbounded(self.origin, COORD_MAX as int) && vbounded(self.direction, COORD_MAX as int)
    }

    /// The point `origin + direction * t` at the fixed-point scale.
    pub open spec fn at_spec(r: Ray, t: int) -> Vec3 {
        Vec3 {
            x: (r.origin.x + tdiv(t * r.direction.x, SCALE as int)) as i64,
            y: (r.origin.y + tdiv(t * r.direction.y, SCALE as int)) as i64,
            z: (r.origin.z + tdiv(t * r.direction.z, SCALE as int)) as i64,
        }
    }

    /// The point the ray reaches at parameter `t`.
    pub fn at(&self, t: i64) -> (p: Vec3)
        requires
            self.wf(),
            iabs(t as int) <= INFINITY as int,
        ensures
            p == Self::at_spec(*self, t as int),
            vbounded(p, 0x2000_0000_0000_0000),
    {
        proof {
            lemma_at_component(t as int, self.direction.x as int, self.origin.x as int);
            lemma_at_component(t as int, self.direction.y as int, self.origin.y as int);
            lemma_at_component(t as int, self.direction.z as int, self.origin.z as int);
        }
        let x = self.origin.x + (tdiv128((t as i128) * (self.direction.x as i128), SCALE as i128)
            as i64);
        let y = self.origin.y + (tdiv128((t as i128) * (self.direction.y as i128), SCALE as i128)
            as i64);
        let z = self.origin.z + (tdiv128((t as i128) * (self.direction.z as i128), SCALE as i128)
            as i64);
        Vec3 { x, y, z }
    }
}

/// One component of a ray evaluation stays far inside the machine range.
proof fn lemma_at_component(t: int, d: int, o: int)
    requires
        iabs(t) <= INFINITY as int,
        iabs(d) <= COORD_MAX as int,
        iabs(o) <= COORD_MAX as int,
    ensures
        iabs(t * d) <= 0x1000_0000_0000_0000_0000,
        iabs(tdiv(t * d, SCALE as int)) <= 0x1000_0000_0000_0000,
        iabs(o + tdiv(t * d, SCALE as int)) <= 0x2000_0000_0000_0000,
{
    lemma_abs_mul(t, d, INFINITY as int, COORD_MAX as int);
    assert((INFINITY as int) * (COORD_MAX as int) == 0x1000_0000_0000_0000_0000int)
        by (nonlinear_arith)
        requires
            INFINITY == 0x8000_0000_0000,
            COORD_MAX == 0x2000_0000,
    ;
    assert(0x1000_0000_0000_0000int * (SCALE as int) == 0x1000_0000_0000_0000_0000int)
        by (nonlinear_arith)
        requires
            SCALE == 65536,
    ;
    lemma_tdiv_le(t * d, SCALE as int, 0x1000_0000_0000_0000);
}

} // verus!
