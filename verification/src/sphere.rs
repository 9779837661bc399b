use crate::aabb::{box_bounded, Aabb};
use crate::hittable::HitRecord;
use crate::material::Material;
use crate::ray::Ray;
use crate::rtweekend::{
    iabs, isqrt, lemma_sqrt_floor_exists, lemma_tdiv_bounds, sqrt_floor, tdiv, tdiv128, tdiv64,
    COORD_MAX, INFINITY, NORMAL_MAX, SCALE,
};
use crate::vec3::{
    dot3, lemma_abs_mul, lemma_dot3_bound, lemma_dot3_self_nonneg, vbounded, Point3, Vec3,
};
use vstd::prelude::*;

verus! {

/// A sphere: center, radius, and the material of its surface.
#[derive(Clone, Copy, PartialEq, Eq, Structural, Debug)]
pub struct Sphere {
    pub center: Point3,
    pub radius: i64,
    pub mat: Material,
}

impl Sphere {
    /// A sphere the intersection routines accept: center inside the
    /// supported coordinate volume, a positive radius within it, and a
    /// well-formed material.
    pub open spec fn wf(self) -> bool {
        vbounded(self.center, COORD_MAX as int) && 1 <= self.radius <= COORD_MAX && self.mat.wf()
    }

    pub fn new(cen: Point3, r: i64, mat: Material) -> (s: Sphere)
        requires
            vbounded(cen, COORD_MAX as int),
            1 <= r <= COORD_MAX,
            mat.wf(),
        ensures
            s == (Sphere { center: cen, radius: r, mat }),
            s.wf(),
    {
        Sphere { center: cen, radius: r, mat }
    }

    /// The box `center - (r, r, r)` to `center + (r, r, r)`: a sphere
    /// always has a finite bounding box.
    pub open spec fn box_spec(s: Sphere) -> Aabb {
        Aabb {
            minimum: Vec3 {
                x: (s.center.x - s.radius) as i64,
                y: (s.center.y - s.radius) as i64,
                z: (s.center.z - s.radius) as i64,
            },
            maximum: Vec3 {
                x: (s.center.x + s.radius) as i64,
                y: (s.center.y + s.radius) as i64,
                z: (s.center.z + s.radius) as i64,
            },
        }
    }

    /// The sphere's bounding box over a time interval (it does not move, so
    /// the interval is inert); always defined.
    pub fn bounding_box(&self, _time0: i64, _time1: i64) -> (bb: Aabb)
        requires
            self.wf(),
        ensures
            bb == Self::box_spec(*self),
            box_bounded(bb, 0x4000_0000),
    {
        Aabb {
            minimum: Vec3 {
                x: self.center.x - self.radius,
                y: self.center.y - self.radius,
                z: self.center.z - self.radius,
            },
            maximum: Vec3 {
                x: self.center.x + self.radius,
                y: self.center.y + self.radius,
                z: self.center.z + self.radius,
            },
        }
    }

    /// The nearest intersection of the ray with the sphere inside
    /// `[t_min, t_max]`, solving `a t^2 + 2 half_b t + c = 0` exactly over
    /// the scaled integers: no intersection when the discriminant is
    /// negative, when neither root lies in range, when the direction is the
    /// zero vector, or (a coordinate-volume guard) when the hit point or
    /// normal leaves the supported range.
    pub open spec fn hit_spec(s: Sphere, r: Ray, t_min: int, t_max: int) -> Option<HitRecord> {
        let oc = Vec3 {
            x: (r.origin.x - s.center.x) as i64,
            y: (r.origin.y - s.center.y) as i64,
            z: (r.origin.z - s.center.z) as i64,
        };
        let a = dot3(r.direction, r.direction);
        let half_b = dot3(oc, r.direction);
        let c = dot3(oc, oc) - s.radius * s.radius;
        if a == 0 {
            None
        } else {
            let disc = half_b * half_b - a * c;
            if disc < 0 {
                None
            } else {
                let sqrtd = sqrt_floor(disc);
                let root1 = tdiv((-half_b - sqrtd) * SCALE, a);
                let root = if root1 < t_min || root1 > t_max {
                    tdiv((-half_b + sqrtd) * SCALE, a)
                } else {
                    root1
                };
                if root < t_min || root > t_max {
                    None
                } else {
                    let p = Ray::at_spec(r, root);
                    if !vbounded(p, COORD_MAX as int) {
                        None
                    } else {
                        let outward = Vec3 {
                            x: tdiv((p.x - s.center.x) * SCALE, s.radius as int) as i64,
                            y: tdiv((p.y - s.center.y) * SCALE, s.radius as int) as i64,
                            z: tdiv((p.z - s.center.z) * SCALE, s.radius as int) as i64,
                        };
                        if !vbounded(outward, NORMAL_MAX as int) {
                            None
                        } else {
                            let front = dot3(r.direction, outward) < 0;
                            Some(
                                HitRecord {
                                    p,
                                    normal: if front {
                                        outward
                                    } else {
                                        Vec3 {
                                            x: (-outward.x) as i64,
                                            y: (-outward.y) as i64,
                                            z: (-outward.z) as i64,
                                        }
                                    },
                                    mat: s.mat,
                                    t: root as i64,
                                    front_face: front,
                                },
                            )
                        }
                    }
                }
            }
        }
    }

    /// Intersects the ray with the sphere inside `[t_min, t_max]`.
    pub fn hit(&self, r: &Ray, t_min: i64, t_max: i64) -> (res: Option<HitRecord>)
        requires
            self.wf(),
            r.wf(),
            iabs(t_min as int) <= INFINITY as int,
            iabs(t_max as int) <= INFINITY as int,
        ensures
            res == Self::hit_spec(*self, *r, t_min as int, t_max as int),
            res is Some ==> (res->0).wf(),
            res is Some ==> t_min <= (res->0).t <= t_max,
            res is Some ==> (res->0).mat == self.mat,
    {
        let oc = Vec3 {
            x: r.origin.x - self.center.x,
            y: r.origin.y - self.center.y,
            z: r.origin.z - self.center.z,
        };
        proof {
            lemma_dot3_bound(r.direction, r.direction, COORD_MAX as int, COORD_MAX as int);
            lemma_dot3_bound(oc, r.direction, 0x4000_0000, COORD_MAX as int);
            lemma_dot3_bound(oc, oc, 0x4000_0000, 0x4000_0000);
            lemma_dot3_self_nonneg(r.direction);
            lemma_abs_mul(self.radius as int, self.radius as int, COORD_MAX as int, COORD_MAX as int);
            lemma_abs_mul(oc.x as int, r.direction.x as int, 0x4000_0000, COORD_MAX as int);
            lemma_abs_mul(oc.y as int, r.direction.y as int, 0x4000_0000, COORD_MAX as int);
            lemma_abs_mul(oc.z as int, r.direction.z as int, 0x4000_0000, COORD_MAX as int);
            lemma_abs_mul(oc.x as int, oc.x as int, 0x4000_0000, 0x4000_0000);
            lemma_abs_mul(oc.y as int, oc.y as int, 0x4000_0000, 0x4000_0000);
            lemma_abs_mul(oc.z as int, oc.z as int, 0x4000_0000, 0x4000_0000);
            lemma_abs_mul(
                r.direction.x as int,
                r.direction.x as int,
                COORD_MAX as int,
                COORD_MAX as int,
            );
            lemma_abs_mul(
                r.direction.y as int,
                r.direction.y as int,
                COORD_MAX as int,
                COORD_MAX as int,
            );
            lemma_abs_mul(
                r.direction.z as int,
                r.direction.z as int,
                COORD_MAX as int,
                COORD_MAX as int,
            );
        }
        let a = r.direction.x * r.direction.x + r.direction.y * r.direction.y + r.direction.z
            * r.direction.z;
        let half_b = oc.x * r.direction.x + oc.y * r.direction.y + oc.z * r.direction.z;
        let c = (oc.x * oc.x + oc.y * oc.y + oc.z * oc.z) - self.radius * self.radius;
        if a == 0 {
            return None;
        }
        proof {
            lemma_abs_mul(half_b as int, half_b as int, 0x1800_0000_0000_0000, 0x1800_0000_0000_0000);
            lemma_abs_mul(a as int, c as int, 0xC00_0000_0000_0000, 0x3400_0000_0000_0000);
        }
        let disc: i128 = (half_b as i128) * (half_b as i128) - (a as i128) * (c as i128);
        if disc < 0 {
            return None;
        }
        let sqrtd_u = isqrt(disc as u128);
        proof {
            if sqrtd_u as int >= 0x4000_0000_0000_0000int {
                assert((sqrtd_u as int) * (sqrtd_u as int) >= 0x4b0_0000_0000_0000_0000_0000_0000_0000int
                    + 1) by (nonlinear_arith)
                    requires
                        sqrtd_u as int >= 0x4000_0000_0000_0000int,
                ;
                assert(false);
            }
        }
        let sqrtd: i128 = sqrtd_u as i128;
        proof {
            lemma_abs_mul(
                -(half_b as int) - (sqrtd as int),
                SCALE as int,
                0x5800_0000_0000_0000,
                SCALE as int,
            );
            lemma_abs_mul(
                -(half_b as int) + (sqrtd as int),
                SCALE as int,
                0x5800_0000_0000_0000,
                SCALE as int,
            );
        }
        let root1: i128 = tdiv128((-(half_b as i128) - sqrtd) * (SCALE as i128), a as i128);
        let root: i128 = if root1 < (t_min as i128) || root1 > (t_max as i128) {
            tdiv128((-(half_b as i128) + sqrtd) * (SCALE as i128), a as i128)
        } else {
            root1
        };
        if root < (t_min as i128) || root > (t_max as i128) {
            return None;
        }
        let root64 = root as i64;
        let p = r.at(root64);
        if !(-COORD_MAX <= p.x && p.x <= COORD_MAX && -COORD_MAX <= p.y && p.y <= COORD_MAX
            && -COORD_MAX <= p.z && p.z <= COORD_MAX) {
            return None;
        }
        proof {
            lemma_tdiv_bounds((p.x - self.center.x) * SCALE, self.radius as int);
            lemma_tdiv_bounds((p.y - self.center.y) * SCALE, self.radius as int);
            lemma_tdiv_bounds((p.z - self.center.z) * SCALE, self.radius as int);
        }
        let outward = Vec3 {
            x: tdiv64((p.x - self.center.x) * SCALE, self.radius),
            y: tdiv64((p.y - self.center.y) * SCALE, self.radius),
            z: tdiv64((p.z - self.center.z) * SCALE, self.radius),
        };
        if !(-NORMAL_MAX <= outward.x && outward.x <= NORMAL_MAX && -NORMAL_MAX <= outward.y
            && outward.y <= NORMAL_MAX && -NORMAL_MAX <= outward.z && outward.z <= NORMAL_MAX) {
            return None;
        }
        let mut rec = HitRecord::default();
        rec.t = root64;
        rec.p = p;
        rec.mat = self.mat;
        rec.set_face_normal(r, &outward);
        Some(rec)
    }
}

/// Range agreement of the quadratic solver under a widened upper bound:
/// a hit found inside the smaller range is exactly the hit found inside
/// the larger one, and a hit of the larger range that lies inside the
/// smaller range is also the smaller range's hit.
pub proof fn lemma_sphere_hit_monotone(s: Sphere, r: Ray, t_min: int, t_max1: int, t_max2: int)
    requires
        t_max1 <= t_max2,
        iabs(t_min) <= INFINITY as int,
        iabs(t_max1) <= INFINITY as int,
        iabs(t_max2) <= INFINITY as int,
    ensures
        Sphere::hit_spec(s, r, t_min, t_max1) is Some ==> Sphere::hit_spec(s, r, t_min, t_max2)
            == Sphere::hit_spec(s, r, t_min, t_max1),
        Sphere::hit_spec(s, r, t_min, t_max2) matches Some(h) && h.t <= t_max1
            ==> Sphere::hit_spec(s, r, t_min, t_max1) == Sphere::hit_spec(s, r, t_min, t_max2),
{
    let oc = Vec3 {
        x: (r.origin.x - s.center.x) as i64,
        y: (r.origin.y - s.center.y) as i64,
        z: (r.origin.z - s.center.z) as i64,
    };
    let a = dot3(r.direction, r.direction);
    let half_b = dot3(oc, r.direction);
    let c = dot3(oc, oc) - s.radius * s.radius;
    if a != 0 {
        let disc = half_b * half_b - a * c;
        if disc >= 0 {
            lemma_sqrt_floor_exists(disc as nat);
            let sqrtd = sqrt_floor(disc);
            lemma_dot3_self_nonneg(r.direction);
            crate::rtweekend::lemma_tdiv_monotone(
                (-half_b - sqrtd) * SCALE,
                (-half_b + sqrtd) * SCALE,
                a,
            );
        }
    }
}

/// A hit of the quadratic solver lies inside the queried range.
pub proof fn lemma_sphere_hit_range(s: Sphere, r: Ray, t_min: int, t_max: int)
    requires
        iabs(t_min) <= INFINITY as int,
        iabs(t_max) <= INFINITY as int,
    ensures
        Sphere::hit_spec(s, r, t_min, t_max) matches Some(h) ==> t_min <= h.t <= t_max,
{
}

} // verus!
