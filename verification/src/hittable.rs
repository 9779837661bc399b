use crate::material::{Lambertian, Material};
use crate::ray::Ray;
use crate::rtweekend::{iabs, COORD_MAX, INFINITY, NORMAL_MAX};
use crate::aabb::Aabb;
use crate::vec3::{dot, dot3, vbounded, Point3, Vec3};
use vstd::prelude::*;

verus! {

/// The record a successful intersection fills: hit point, outward-corrected
/// surface normal, the material at the hit point, the ray parameter of the
/// hit, and whether the ray struck the surface from outside.
#[derive(Clone, Copy, PartialEq, Eq, Structural, Debug)]
pub struct HitRecord {
    pub p: Point3,
    pub normal: Vec3,
    pub mat: Material,
    pub t: i64,
    pub front_face: bool,
}

impl HitRecord {
    /// A record the scattering routines accept: point and normal inside the
    /// supported coordinate volume, a well-formed material, and a parameter
    /// inside the supported range.
    pub open spec fn wf(self) -> bool {
        &&& vbounded(self.p, COORD_MAX as int)
        &&& vbounded(self.normal, NORMAL_MAX as int)
        &&& self.mat.wf()
        &&& iabs(self.t as int) <= INFINITY as int
    }

    /// Orients the stored normal against the ray: `front_face` records
    /// whether the ray came from outside (its direction opposes the outward
    /// normal), and the stored normal is flipped to oppose the ray.
    pub fn set_face_normal(&mut self, r: &Ray, outward_normal: &Vec3)
        requires
            vbounded(*outward_normal, 0x4000_0000),
            r.wf(),
        ensures
            final(self).front_face == (dot3(r.direction, *outward_normal) < 0),
            final(self).normal == if dot3(r.direction, *outward_normal) < 0 {
                *outward_normal
            } else {
                Vec3 {
                    x: (-outward_normal.x) as i64,
                    y: (-outward_normal.y) as i64,
                    z: (-outward_normal.z) as i64,
                }
            },
            final(self).p == old(self).p,
            final(self).t == old(self).t,
            final(self).mat == old(self).mat,
    {
        self.front_face = dot(r.direction(), outward_normal) < 0;
        self.normal = if self.front_face {
            *outward_normal
        } else {
            outward_normal.neg()
        };
    }
}

impl Default for HitRecord {
    /// An empty record: origin point, zero normal, black diffuse material.
    fn default() -> (r: Self)
        ensures
            r.p == (Vec3 { x: 0, y: 0, z: 0 }),
            r.normal == (Vec3 { x: 0, y: 0, z: 0 }),
            r.t == 0,
            r.front_face == true,
            r.mat == Material::Lambertian(Lambertian { albedo: Vec3 { x: 0, y: 0, z: 0 } }),
    {
        HitRecord {
            p: Vec3 { x: 0, y: 0, z: 0 },
            normal: Vec3 { x: 0, y: 0, z: 0 },
            t: 0,
            front_face: true,
            mat: Material::Lambertian(Lambertian { albedo: Vec3 { x: 0, y: 0, z: 0 } }),
        }
    }
}

/// An intersectable entity: a sphere, or an interior node of a
/// bounding-volume hierarchy. A closed sum stands in for the open trait
/// dispatch: every variant answers the same ray query and reports a finite
/// bounding box.
#[derive(Debug)]
pub enum Entity {
    Sphere(crate::sphere::Sphere),
    Node(Box<crate::bvh::BVHNode>),
}

impl Clone for Entity {
    /// A deep copy equal to the original.
    fn clone(&self) -> (r: Self)
        ensures
            r == *self,
        decreases *self,
    {
        match self {
            Entity::Sphere(s) => Entity::Sphere(*s),
            Entity::Node(n) => Entity::Node(Box::new((**n).clone())),
        }
    }
}

impl Entity {
    /// Every sphere of the entity is well-formed and every interior node
    /// caches exactly the union of its children's boxes.
    pub open spec fn wf(self) -> bool
        decreases self,
    {
        match self {
            Entity::Sphere(s) => s.wf(),
            Entity::Node(n) => n.wf(),
        }
    }

    /// The entity's (always finite) bounding box.
    pub open spec fn bbox_spec(self) -> Aabb
        decreases self,
    {
        match self {
            Entity::Sphere(s) => crate::sphere::Sphere::box_spec(s),
            Entity::Node(n) => n.bbox,
        }
    }

    /// The spheres at the entity's leaves, left to right.
    pub open spec fn spheres(self) -> Seq<crate::sphere::Sphere>
        decreases self,
    {
        match self {
            Entity::Sphere(s) => seq![s],
            Entity::Node(n) => n.left.spheres() + n.right.spheres(),
        }
    }

    /// The entity's answer to a ray query: a sphere answers directly; a
    /// hierarchy node prunes by its box, then queries left and right, the
    /// right side within the left hit's parameter.
    pub open spec fn hit_spec(e: Entity, r: Ray, t_min: int, t_max: int) -> Option<HitRecord>
        decreases e,
    {
        match e {
            Entity::Sphere(s) => crate::sphere::Sphere::hit_spec(s, r, t_min, t_max),
            Entity::Node(n) => crate::bvh::BVHNode::hit_spec(*n, r, t_min, t_max),
        }
    }

    /// Intersects the ray with the entity inside `[t_min, t_max]`.
    pub fn hit(&self, r: &Ray, t_min: i64, t_max: i64) -> (res: Option<HitRecord>)
        requires
            self.wf(),
            r.wf(),
            iabs(t_min as int) <= INFINITY as int,
            iabs(t_max as int) <= INFINITY as int,
        ensures
            res == Entity::hit_spec(*self, *r, t_min as int, t_max as int),
            res is Some ==> (res->0).wf(),
            res is Some ==> t_min <= (res->0).t <= t_max,
        decreases *self,
    {
        match self {
            Entity::Sphere(s) => s.hit(r, t_min, t_max),
            Entity::Node(n) => n.hit(r, t_min, t_max),
        }
    }

    /// The entity's bounding box over a time interval; always defined for
    /// this closed set of variants.
    pub fn bounding_box(&self, time0: i64, time1: i64) -> (bb: Aabb)
        requires
            self.wf(),
        ensures
            bb == self.bbox_spec(),
        decreases *self,
    {
        match self {
            Entity::Sphere(s) => s.bounding_box(time0, time1),
            Entity::Node(n) => n.bounding_box(time0, time1),
        }
    }
}

} // verus!
