use crate::aabb::{surrounding_box, surrounding_box_spec, Aabb};
use crate::hittable::{Entity, HitRecord};
use crate::ray::Ray;
use crate::rtweekend::{iabs, INFINITY};
use vstd::prelude::*;

verus! {

/// The scene aggregate: an ordered collection of intersectable entities
/// with a brute-force (linear scan) intersection and a bounding-box union.
#[derive(Debug)]
pub struct HittableList {
    pub objects: Vec<Entity>,
}

/// The brute-force scan over a sequence of entities: try the first entity
/// in `[t_min, t_max]`, then the rest with the upper bound tightened to its
/// hit, so only closer (or equally close, later) hits replace it.
pub open spec fn ent_fold(items: Seq<Entity>, r: Ray, t_min: int, t_max: int) -> Option<HitRecord>
    decreases items.len(),
{
    if items.len() == 0 {
        None
    } else {
        match Entity::hit_spec(items[0], r, t_min, t_max) {
            Option::None => ent_fold(items.drop_first(), r, t_min, t_max),
            Option::Some(r0) => match ent_fold(items.drop_first(), r, t_min, r0.t as int) {
                Option::Some(r1) => Some(r1),
                Option::None => Some(r0),
            },
        }
    }
}

/// The bounding box accumulated over the entities from index `i`, starting
/// from `acc`.
pub open spec fn bbox_fold(items: Seq<Entity>, i: int, acc: Aabb) -> Aabb
    decreases items.len() - i,
{
    if i < 0 || i >= items.len() {
        acc
    } else {
        bbox_fold(items, i + 1, surrounding_box_spec(acc, items[i].bbox_spec()))
    }
}

impl Default for HittableList {
    /// An empty scene.
    fn default() -> (r: Self)
        ensures
            r.objects@ =~= Seq::<Entity>::empty(),
    {
        HittableList { objects: Vec::new() }
    }
}

impl HittableList {
    /// Every entity of the scene is well-formed.
    pub open spec fn wf(self) -> bool {
        forall|i: int| 0 <= i < self.objects@.len() ==> (#[trigger] self.objects@[i]).wf()
    }

    /// A scene holding one entity.
    pub fn new(object: Entity) -> (r: HittableList)
        requires
            object.wf(),
        ensures
            r.objects@ =~= seq![object],
            r.wf(),
    {
        let mut list = HittableList::default();
        list.add(object);
        list
    }

    /// Appends an entity to the scene.
    pub fn add(&mut self, object: Entity)
        ensures
            final(self).objects@ == old(self).objects@.push(object),
    {
        self.objects.push(object);
    }

    /// Removes every entity.
    pub fn clear(&mut self)
        ensures
            final(self).objects@ =~= Seq::<Entity>::empty(),
    {
        self.objects.clear()
    }

    /// The nearest hit of the ray against the scene inside `[t_min, t_max]`:
    /// a linear scan that keeps the closest hit seen so far.
    pub fn hit(&self, r: &Ray, t_min: i64, t_max: i64) -> (res: Option<HitRecord>)
        requires
            self.wf(),
            r.wf(),
            iabs(t_min as int) <= INFINITY as int,
            iabs(t_max as int) <= INFINITY as int,
        ensures
            res == ent_fold(self.objects@, *r, t_min as int, t_max as int),
            res is Some ==> (res->0).wf(),
            res is Some ==> t_min <= (res->0).t <= t_max,
    {
        let ghost items = self.objects@;
        let mut best: Option<HitRecord> = None;
        let mut closest_so_far = t_max;
        let n = self.objects.len();
        let mut i: usize = 0;
        proof {
            assert(items.skip(0) =~= items);
        }
        while i < n
            invariant
                0 <= i <= n,
                n == items.len(),
                items == self.objects@,
                self.wf(),
                r.wf(),
                iabs(t_min as int) <= INFINITY as int,
                iabs(t_max as int) <= INFINITY as int,
                iabs(closest_so_far as int) <= INFINITY as int,
                best is Some ==> (best->0).wf(),
                best is Some ==> t_min <= (best->0).t <= t_max,
                best is Some ==> closest_so_far == (best->0).t,
                best is None ==> closest_so_far == t_max,
                ent_fold(items, *r, t_min as int, t_max as int) == match ent_fold(
                    items.skip(i as int),
                    *r,
                    t_min as int,
                    closest_so_far as int,
                ) {
                    Option::Some(rr) => Some(rr),
                    Option::None => best,
                },
            decreases n - i,
        {
            let step = self.objects[i].hit(r, t_min, closest_so_far);
            proof {
                assert(items.skip(i as int).drop_first() =~= items.skip(i as int + 1));
                assert(items.skip(i as int)[0] == items[i as int]);
            }
            match step {
                Some(rec) => {
                    closest_so_far = rec.t;
                    best = Some(rec);
                },
                None => {},
            }
            i = i + 1;
        }
        proof {
            assert(items.skip(n as int) =~= Seq::<Entity>::empty());
        }
        best
    }

    /// The union of the members' bounding boxes, or nothing for an empty
    /// scene. Every member of this closed set of entities has a box, so an
    /// empty scene is the only failure.
    pub fn bounding_box(&self, time0: i64, time1: i64) -> (res: Option<Aabb>)
        requires
            self.wf(),
        ensures
            self.objects@.len() == 0 ==> res is None,
            self.objects@.len() > 0 ==> res == Some(
                bbox_fold(self.objects@, 1, self.objects@[0].bbox_spec()),
            ),
    {
        let n = self.objects.len();
        if n == 0 {
            return None;
        }
        let mut acc = self.objects[0].bounding_box(time0, time1);
        let mut i: usize = 1;
        while i < n
            invariant
                1 <= i <= n,
                n == self.objects@.len(),
                self.wf(),
                bbox_fold(self.objects@, 1, self.objects@[0].bbox_spec()) == bbox_fold(
                    self.objects@,
                    i as int,
                    acc,
                ),
            decreases n - i,
        {
            let bb = self.objects[i].bounding_box(time0, time1);
            acc = surrounding_box(acc, bb);
            i = i + 1;
        }
        Some(acc)
    }
}

/// The brute-force scan over bare spheres: the reference against which the
/// hierarchy traversal is proved. Same discipline as `ent_fold`: try the
/// first sphere, then the rest under the tightened upper bound.
pub open spec fn sphere_fold(
    items: Seq<crate::sphere::Sphere>,
    r: Ray,
    t_min: int,
    t_max: int,
) -> Option<HitRecord>
    decreases items.len(),
{
    if items.len() == 0 {
        None
    } else {
        match crate::sphere::Sphere::hit_spec(items[0], r, t_min, t_max) {
            Option::None => sphere_fold(items.drop_first(), r, t_min, t_max),
            Option::Some(r0) => match sphere_fold(items.drop_first(), r, t_min, r0.t as int) {
                Option::Some(r1) => Some(r1),
                Option::None => Some(r0),
            },
        }
    }
}

/// A hit of the brute-force scan lies inside the queried range.
pub proof fn lemma_sphere_fold_range(
    items: Seq<crate::sphere::Sphere>,
    r: Ray,
    t_min: int,
    t_max: int,
)
    requires
        iabs(t_min) <= INFINITY as int,
        iabs(t_max) <= INFINITY as int,
    ensures
        sphere_fold(items, r, t_min, t_max) matches Some(h) ==> t_min <= h.t <= t_max,
    decreases items.len(),
{
    if items.len() > 0 {
        crate::sphere::lemma_sphere_hit_range(items[0], r, t_min, t_max);
        match crate::sphere::Sphere::hit_spec(items[0], r, t_min, t_max) {
            Option::None => {
                lemma_sphere_fold_range(items.drop_first(), r, t_min, t_max);
            },
            Option::Some(h0) => {
                lemma_sphere_fold_range(items.drop_first(), r, t_min, h0.t as int);
            },
        }
    }
}

/// Nearest-hit monotonicity of the brute-force scan: widening the upper
/// end of the parameter range never makes the reported hit closer, and
/// never hides a hit that lies inside the narrower range. Precisely: a hit
/// found inside `[t_min, t_max1]` is exactly the hit found inside the wider
/// `[t_min, t_max2]`, and a hit of the wider range lying inside the
/// narrower one is also the narrower range's hit — so the narrower range
/// never reports a farther hit than the wider range reports within it.
pub proof fn lemma_nearest_hit_monotonic(
    items: Seq<crate::sphere::Sphere>,
    r: Ray,
    t_min: int,
    t_max1: int,
    t_max2: int,
)
    requires
        t_max1 <= t_max2,
        iabs(t_min) <= INFINITY as int,
        iabs(t_max1) <= INFINITY as int,
        iabs(t_max2) <= INFINITY as int,
    ensures
        sphere_fold(items, r, t_min, t_max1) is Some ==> sphere_fold(items, r, t_min, t_max2)
            == sphere_fold(items, r, t_min, t_max1),
        sphere_fold(items, r, t_min, t_max2) matches Some(h) && h.t <= t_max1 ==> sphere_fold(
            items,
            r,
            t_min,
            t_max1,
        ) == sphere_fold(items, r, t_min, t_max2),
    decreases items.len(),
{
    if items.len() > 0 {
        let s0 = items[0];
        let rest = items.drop_first();
        crate::sphere::lemma_sphere_hit_monotone(s0, r, t_min, t_max1, t_max2);
        crate::sphere::lemma_sphere_hit_range(s0, r, t_min, t_max1);
        crate::sphere::lemma_sphere_hit_range(s0, r, t_min, t_max2);
        let h1 = crate::sphere::Sphere::hit_spec(s0, r, t_min, t_max1);
        let h2 = crate::sphere::Sphere::hit_spec(s0, r, t_min, t_max2);
        if h1 is Some {
            // The wider query sees the very same first hit, so both folds
            // continue under the identical tightened bound.
            lemma_sphere_fold_range(rest, r, t_min, (h1->0).t as int);
        } else if h2 is None {
            lemma_nearest_hit_monotonic(rest, r, t_min, t_max1, t_max2);
        } else {
            // Only the wider query hits the first sphere, necessarily
            // beyond the narrower bound.
            let g = h2->0;
            assert(g.t > t_max1);
            lemma_nearest_hit_monotonic(rest, r, t_min, t_max1, g.t as int);
            lemma_sphere_fold_range(rest, r, t_min, t_max1);
            lemma_sphere_fold_range(rest, r, t_min, g.t as int);
        }
    }
}

} // verus!
