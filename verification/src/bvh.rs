use crate::aabb::{box_bounded, slab_spec, surrounding_box, surrounding_box_spec, Aabb};
use crate::hittable::{Entity, HitRecord};
use crate::hittable_list::{sphere_fold, HittableList};
use crate::ray::Ray;
use crate::rtweekend::{iabs, rand_int, INFINITY};
use crate::sphere::Sphere;
use crate::vec3::Vec3;
use vstd::prelude::*;
use vstd::seq_lib::group_to_multiset_ensures;

verus! {

/// An interior node of the bounding-volume hierarchy: two child entities
/// and the cached union of their bounding boxes.
#[derive(Debug)]
pub struct BVHNode {
    pub left: Entity,
    pub right: Entity,
    pub bbox: Aabb,
}

impl Clone for BVHNode {
    /// A deep copy equal to the original.
    fn clone(&self) -> (r: Self)
        ensures
            r == *self,
        decreases *self,
    {
        BVHNode { left: self.left.clone(), right: self.right.clone(), bbox: self.bbox }
    }
}

/// The ordering key of an entity on an axis: the minimum corner of its
/// bounding box on that axis.
pub open spec fn axis_key(e: Entity, axis: int) -> i64 {
    Vec3::comp(e.bbox_spec().minimum, axis)
}

/// The sequence is ordered by bounding-box minimum on the given axis.
pub open spec fn sorted_by_key(s: Seq<Entity>, axis: int) -> bool {
    forall|i: int, j: int| 0 <= i < j < s.len() ==> axis_key(s[i], axis) <= axis_key(s[j], axis)
}

/// The spheres at the leaves of a sequence of entities, left to right.
pub open spec fn seq_spheres(s: Seq<Entity>) -> Seq<Sphere>
    decreases s.len(),
{
    if s.len() == 0 {
        Seq::empty()
    } else {
        s[0].spheres() + seq_spheres(s.drop_first())
    }
}

/// A sphere is among the leaves of a sequence exactly when it is among the
/// leaves of one of its entities.
pub proof fn lemma_seq_spheres_contains(s: Seq<Entity>, x: Sphere)
    ensures
        seq_spheres(s).contains(x) <==> exists|i: int|
            0 <= i < s.len() && #[trigger] s[i].spheres().contains(x),
    decreases s.len(),
{
    if s.len() > 0 {
        lemma_seq_spheres_contains(s.drop_first(), x);
        if seq_spheres(s).contains(x) {
            let k = choose|k: int| 0 <= k < seq_spheres(s).len() && seq_spheres(s)[k] == x;
            if k < s[0].spheres().len() {
                assert(s[0].spheres()[k] == x);
                assert(s[0].spheres().contains(x));
            } else {
                assert(seq_spheres(s.drop_first())[k - s[0].spheres().len()] == x);
                assert(seq_spheres(s.drop_first()).contains(x));
                let j = choose|j: int|
                    0 <= j < s.drop_first().len() && #[trigger] s.drop_first()[
                        j
                    ].spheres().contains(x);
                assert(s[j + 1].spheres().contains(x));
            }
        }
        if exists|i: int| 0 <= i < s.len() && #[trigger] s[i].spheres().contains(x) {
            let i = choose|i: int| 0 <= i < s.len() && #[trigger] s[i].spheres().contains(x);
            let k = choose|k: int| 0 <= k < s[i].spheres().len() && s[i].spheres()[k] == x;
            if i == 0 {
                assert(seq_spheres(s)[k] == x);
            } else {
                assert(s.drop_first()[i - 1].spheres().contains(x));
                assert(seq_spheres(s.drop_first()).contains(x));
                let m = choose|m: int|
                    0 <= m < seq_spheres(s.drop_first()).len() && seq_spheres(s.drop_first())[m]
                        == x;
                assert(seq_spheres(s)[s[0].spheres().len() + m] == x);
            }
            assert(seq_spheres(s).contains(x));
        }
    }
}

/// Two entity sequences with the same members have the same leaf spheres.
pub proof fn lemma_same_entities_same_spheres(s1: Seq<Entity>, s2: Seq<Entity>, x: Sphere)
    requires
        forall|e: Entity| s1.contains(e) <==> s2.contains(e),
    ensures
        seq_spheres(s1).contains(x) <==> seq_spheres(s2).contains(x),
{
    lemma_seq_spheres_contains(s1, x);
    lemma_seq_spheres_contains(s2, x);
    if seq_spheres(s1).contains(x) {
        let i = choose|i: int| 0 <= i < s1.len() && #[trigger] s1[i].spheres().contains(x);
        assert(s1.contains(s1[i]));
        let j = choose|j: int| 0 <= j < s2.len() && s2[j] == s1[i];
        assert(s2[j].spheres().contains(x));
    }
    if seq_spheres(s2).contains(x) {
        let i = choose|i: int| 0 <= i < s2.len() && #[trigger] s2[i].spheres().contains(x);
        assert(s2.contains(s2[i]));
        let j = choose|j: int| 0 <= j < s1.len() && s1[j] == s2[i];
        assert(s1[j].spheres().contains(x));
    }
}

/// The leaf spheres of a concatenation are the two leaf sequences joined.
pub proof fn lemma_seq_spheres_concat(a: Seq<Entity>, b: Seq<Entity>)
    ensures
        seq_spheres(a + b) == seq_spheres(a) + seq_spheres(b),
    decreases a.len(),
{
    if a.len() == 0 {
        assert(a + b =~= b);
        assert(seq_spheres(a) + seq_spheres(b) =~= seq_spheres(b));
    } else {
        lemma_seq_spheres_concat(a.drop_first(), b);
        assert((a + b).drop_first() =~= a.drop_first() + b);
        assert(seq_spheres(a + b) =~= seq_spheres(a) + seq_spheres(b)) by {
            assert(seq_spheres(a + b) == (a + b)[0].spheres() + seq_spheres((a + b).drop_first()));
            assert((a + b)[0] == a[0]);
        }
    }
}

/// A well-formed entity has its bounding box inside the supported volume.
pub proof fn lemma_wf_box_bounded(e: Entity)
    requires
        e.wf(),
    ensures
        box_bounded(e.bbox_spec(), 0x4000_0000),
    decreases e,
{
    match e {
        Entity::Sphere(s) => {},
        Entity::Node(n) => {
            lemma_wf_box_bounded(n.left);
            lemma_wf_box_bounded(n.right);
        },
    }
}

impl BVHNode {
    /// Both children are well-formed and the cached box is exactly the
    /// union of their boxes.
    pub open spec fn wf(self) -> bool
        decreases self,
    {
        &&& self.left.wf()
        &&& self.right.wf()
        &&& self.bbox == surrounding_box_spec(self.left.bbox_spec(), self.right.bbox_spec())
    }

    /// The traversal: prune by the node's box; on a pass, query the left
    /// child over the full interval and the right child with the upper
    /// bound tightened to the left hit, so only closer right hits win.
    pub open spec fn hit_spec(n: BVHNode, r: Ray, t_min: int, t_max: int) -> Option<HitRecord>
        decreases n,
    {
        if !slab_spec(n.bbox, r, t_min, t_max) {
            None
        } else {
            let lres = Entity::hit_spec(n.left, r, t_min, t_max);
            let rres = Entity::hit_spec(
                n.right,
                r,
                t_min,
                if lres is Some {
                    (lres->0).t as int
                } else {
                    t_max
                },
            );
            if rres is Some {
                rres
            } else {
                lres
            }
        }
    }

    /// Intersects the ray with the subtree inside `[t_min, t_max]`.
    pub fn hit(&self, r: &Ray, t_min: i64, t_max: i64) -> (res: Option<HitRecord>)
        requires
            self.wf(),
            r.wf(),
            iabs(t_min as int) <= INFINITY as int,
            iabs(t_max as int) <= INFINITY as int,
        ensures
            res == Self::hit_spec(*self, *r, t_min as int, t_max as int),
            res is Some ==> (res->0).wf(),
            res is Some ==> t_min <= (res->0).t <= t_max,
        decreases *self,
    {
        proof {
            lemma_wf_box_bounded(self.left);
            lemma_wf_box_bounded(self.right);
        }
        if !self.bbox.hit(r, t_min, t_max) {
            return None;
        }
        let hit_left = self.left.hit(r, t_min, t_max);
        let right_t_max = match &hit_left {
            Some(rec) => rec.t,
            None => t_max,
        };
        let hit_right = self.right.hit(r, t_min, right_t_max);
        match hit_right {
            Some(rr) => Some(rr),
            None => hit_left,
        }
    }

    /// The cached bounding box; always defined.
    pub fn bounding_box(&self, _time0: i64, _time1: i64) -> (bb: Aabb)
        ensures
            bb == self.bbox,
    {
        self.bbox
    }

    /// Builds a hierarchy over the entities of a scene list.
    pub fn new(list: &HittableList, time0: i64, time1: i64) -> (node: BVHNode)
        requires
            list.objects@.len() >= 1,
            list.wf(),
        ensures
            node.wf(),
            forall|x: Sphere|
                #![trigger seq_spheres(list.objects@).contains(x)]
                (node.left.spheres() + node.right.spheres()).contains(x) <==> seq_spheres(
                    list.objects@,
                ).contains(x),
    {
        let mut copied: Vec<Entity> = Vec::new();
        let mut i: usize = 0;
        while i < list.objects.len()
            invariant
                0 <= i <= list.objects@.len(),
                copied@ =~= list.objects@.subrange(0, i as int),
                list.wf(),
            decreases list.objects@.len() - i,
        {
            copied.push(list.objects[i].clone());
            i = i + 1;
        }
        proof {
            assert(copied@ =~= list.objects@);
        }
        Self::bvh_node(copied, time0, time1)
    }

    /// Builds a hierarchy node over a non-empty set of entities: pick a
    /// random axis; a single entity is duplicated into both children; two
    /// entities are ordered by the axis comparator; more are sorted by it,
    /// split at the midpoint, and built recursively. The node's box is the
    /// union of the children's boxes, and the leaves are exactly the
    /// entities' spheres.
    pub fn bvh_node(objects: Vec<Entity>, time0: i64, time1: i64) -> (node: BVHNode)
        requires
            objects@.len() >= 1,
            forall|i: int| 0 <= i < objects@.len() ==> (#[trigger] objects@[i]).wf(),
        ensures
            node.wf(),
            forall|x: Sphere|
                #![trigger seq_spheres(objects@).contains(x)]
                (node.left.spheres() + node.right.spheres()).contains(x) <==> seq_spheres(
                    objects@,
                ).contains(x),
        decreases objects@.len(),
    {
        let ghost input = objects@;
        let mut objects = objects;
        let axis = rand_int(0, 2);
        let object_pan = objects.len();
        let (left, right): (Entity, Entity) = if object_pan == 1 {
            let e = objects.pop().unwrap();
            let dup = e.clone();
            proof {
                assert(input =~= seq![e]);
                assert(seq![e].drop_first() =~= Seq::<Entity>::empty());
                assert forall|x: Sphere|
                    (dup.spheres() + e.spheres()).contains(x) <==> #[trigger] seq_spheres(
                        input,
                    ).contains(x) by {
                    assert(seq_spheres(input) == e.spheres() + seq_spheres(Seq::<Entity>::empty()));
                    assert(seq_spheres(input) =~= e.spheres());
                    if (dup.spheres() + e.spheres()).contains(x) {
                        let k = choose|k: int|
                            0 <= k < (dup.spheres() + e.spheres()).len() && (dup.spheres()
                                + e.spheres())[k] == x;
                        assert(e.spheres().contains(x));
                    }
                    if e.spheres().contains(x) {
                        let k = choose|k: int|
                            0 <= k < e.spheres().len() && e.spheres()[k] == x;
                        assert((dup.spheres() + e.spheres())[dup.spheres().len() + k] == x);
                    }
                }
            }
            (dup, e)
        } else if object_pan == 2 {
            let second = objects.pop().unwrap();
            let first = objects.pop().unwrap();
            proof {
                assert(input =~= seq![first, second]);
                lemma_two_entity_spheres(first, second);
            }
            proof {
                assert forall|x: Sphere|
                    ((first.spheres() + second.spheres()).contains(x) <==> #[trigger] seq_spheres(
                        input,
                    ).contains(x)) by {
                    lemma_concat_contains(first.spheres(), second.spheres(), x);
                }
                assert forall|x: Sphere|
                    ((second.spheres() + first.spheres()).contains(x) <==> #[trigger] seq_spheres(
                        input,
                    ).contains(x)) by {
                    lemma_concat_contains(first.spheres(), second.spheres(), x);
                    lemma_concat_contains(second.spheres(), first.spheres(), x);
                }
            }
            if BVHNode::box_compare(&first, &second, axis) {
                (first, second)
            } else {
                (second, first)
            }
        } else {
            sort_objects(&mut objects, axis);
            let ghost sorted_full = objects@;
            let mid = object_pan / 2;
            let right_vec = objects.split_off(mid);
            let ghost sorted = objects@ + right_vec@;
            proof {
                assert(sorted =~= sorted_full);
                assert forall|k: int| 0 <= k < objects@.len() implies (
                #[trigger] objects@[k]).wf() by {
                    assert(sorted[k] == objects@[k]);
                    assert(sorted.contains(sorted[k]));
                }
                assert forall|k: int| 0 <= k < right_vec@.len() implies (
                #[trigger] right_vec@[k]).wf() by {
                    assert(sorted[objects@.len() + k] == right_vec@[k]);
                    assert(sorted.contains(right_vec@[k]));
                }
                lemma_seq_spheres_concat(objects@, right_vec@);
            }
            let ghost left_seq = objects@;
            let ghost right_seq = right_vec@;
            let left_node = Self::bvh_node(objects, time0, time1);
            let right_node = Self::bvh_node(right_vec, time0, time1);
            proof {
                assert forall|x: Sphere|
                    ((Entity::Node(Box::new(left_node)).spheres() + Entity::Node(
                        Box::new(right_node),
                    ).spheres()).contains(x) <==> #[trigger] seq_spheres(input).contains(x)) by {
                    lemma_concat_contains(left_node.left.spheres() + left_node.right.spheres(),
                        right_node.left.spheres() + right_node.right.spheres(), x);
                    lemma_concat_contains(seq_spheres(left_seq), seq_spheres(right_seq), x);
                    lemma_same_entities_same_spheres(sorted, input, x);
                }
            }
            (Entity::Node(Box::new(left_node)), Entity::Node(Box::new(right_node)))
        };
        let box_left = left.bounding_box(time0, time1);
        let box_right = right.bounding_box(time0, time1);
        let bbox = surrounding_box(box_left, box_right);
        BVHNode { left, right, bbox }
    }

    /// Compares two entities by bounding-box minimum on an axis, strictly.
    pub fn box_compare(a: &Entity, b: &Entity, axis: i32) -> (r: bool)
        requires
            a.wf(),
            b.wf(),
        ensures
            r == (axis_key(*a, axis as int) < axis_key(*b, axis as int)),
    {
        let box_a = a.bounding_box(0, 0);
        let box_b = b.bounding_box(0, 0);
        box_a.minimum.index(axis) < box_b.minimum.index(axis)
    }

    /// Compares two entities on the x axis.
    pub fn box_x_compare(a: &Entity, b: &Entity) -> (r: bool)
        requires
            a.wf(),
            b.wf(),
        ensures
            r == (axis_key(*a, 0) < axis_key(*b, 0)),
    {
        Self::box_compare(a, b, 0)
    }

    /// Compares two entities on the y axis.
    pub fn box_y_compare(a: &Entity, b: &Entity) -> (r: bool)
        requires
            a.wf(),
            b.wf(),
        ensures
            r == (axis_key(*a, 1) < axis_key(*b, 1)),
    {
        Self::box_compare(a, b, 1)
    }

    /// Compares two entities on the z axis.
    pub fn box_z_compare(a: &Entity, b: &Entity) -> (r: bool)
        requires
            a.wf(),
            b.wf(),
        ensures
            r == (axis_key(*a, 2) < axis_key(*b, 2)),
    {
        Self::box_compare(a, b, 2)
    }
}

/// Membership in a concatenation is membership in either part.
pub proof fn lemma_concat_contains(a: Seq<Sphere>, b: Seq<Sphere>, x: Sphere)
    ensures
        (a + b).contains(x) <==> a.contains(x) || b.contains(x),
{
    if (a + b).contains(x) {
        let k = choose|k: int| 0 <= k < (a + b).len() && (a + b)[k] == x;
        if k < a.len() {
            assert(a[k] == x);
        } else {
            assert(b[k - a.len()] == x);
        }
    }
    if a.contains(x) {
        let k = choose|k: int| 0 <= k < a.len() && a[k] == x;
        assert((a + b)[k] == x);
    }
    if b.contains(x) {
        let k = choose|k: int| 0 <= k < b.len() && b[k] == x;
        assert((a + b)[a.len() + k] == x);
    }
}

/// The leaf spheres of a two-entity sequence.
proof fn lemma_two_entity_spheres(a: Entity, b: Entity)
    ensures
        seq_spheres(seq![a, b]) == a.spheres() + b.spheres(),
{
    assert(seq![a, b].drop_first() =~= seq![b]);
    assert(seq![b].drop_first() =~= Seq::<Entity>::empty());
    assert(seq_spheres(Seq::<Entity>::empty()) =~= Seq::<Sphere>::empty());
    assert(seq_spheres(seq![b]) == seq![b][0].spheres() + seq_spheres(seq![b].drop_first()));
    assert(seq_spheres(seq![b]) =~= b.spheres());
    assert(seq_spheres(seq![a, b]) == seq![a, b][0].spheres() + seq_spheres(
        seq![a, b].drop_first(),
    ));
    assert(seq_spheres(seq![a, b]) =~= a.spheres() + b.spheres());
}

/// Insertion sort of the entities by bounding-box minimum on the given
/// axis: the result is ordered and holds exactly the same entities.
fn sort_objects(objects: &mut Vec<Entity>, axis: i32)
    requires
        forall|i: int| 0 <= i < old(objects)@.len() ==> (#[trigger] old(objects)@[i]).wf(),
    ensures
        final(objects)@.len() == old(objects)@.len(),
        final(objects)@.to_multiset() == old(objects)@.to_multiset(),
        forall|e: Entity| final(objects)@.contains(e) <==> old(objects)@.contains(e),
        forall|i: int| 0 <= i < final(objects)@.len() ==> (#[trigger] final(objects)@[i]).wf(),
        sorted_by_key(final(objects)@, axis as int),
{
    broadcast use group_to_multiset_ensures;

    let ghost original = objects@;
    let n = objects.len();
    if n < 2 {
        return ;
    }
    let mut i: usize = 1;
    while i < n
        invariant
            1 <= i <= n,
            2 <= n,
            n == objects@.len(),
            objects@.to_multiset() == original.to_multiset(),
            forall|k: int| 0 <= k < n ==> (#[trigger] objects@[k]).wf(),
            forall|p: int, q: int|
                0 <= p < q < i ==> axis_key(objects@[p], axis as int) <= axis_key(
                    objects@[q],
                    axis as int,
                ),
        decreases n - i,
    {
        let ghost before_rm = objects@;
        let x = objects.remove(i);
        let ghost pre = objects@;
        let mut p: usize = i;
        while p > 0 && BVHNode::box_compare(&x, &objects[p - 1], axis)
            invariant
                0 <= p <= i,
                i < n,
                objects@ == pre,
                pre.len() == n - 1,
                x.wf(),
                forall|k: int| 0 <= k < pre.len() ==> (#[trigger] pre[k]).wf(),
                forall|k: int|
                    p <= k < i ==> axis_key(x, axis as int) < axis_key(
                        #[trigger] pre[k],
                        axis as int,
                    ),
                forall|pp: int, q: int|
                    0 <= pp < q < i ==> axis_key(pre[pp], axis as int) <= axis_key(
                        pre[q],
                        axis as int,
                    ),
            decreases p,
        {
            p = p - 1;
        }
        objects.insert(p, x);
        proof {
            assert(objects@ == pre.insert(p as int, x));
            // The multiset is unchanged: the element removed at `i` is the
            // one re-inserted at `p`.
            vstd::seq_lib::to_multiset_insert(pre, p as int, x);
            vstd::seq_lib::to_multiset_remove(before_rm, i as int);
            assert(pre =~= before_rm.remove(i as int));
            assert(pre.to_multiset() == before_rm.to_multiset().remove(x));
            assert(before_rm.contains(x)) by {
                assert(before_rm[i as int] == x);
            }
            vstd::seq_lib::to_multiset_contains(before_rm, x);
            assert(before_rm.to_multiset().count(x) > 0);
            assert(objects@.to_multiset() =~= before_rm.to_multiset());
            assert(objects@.to_multiset() =~= original.to_multiset());
            // The sorted prefix grew by one: everything left of `p` is at
            // most `x`, everything `x` was passed over exceeds it.
            assert forall|pp: int, q: int| 0 <= pp < q < i + 1 implies axis_key(
                objects@[pp],
                axis as int,
            ) <= axis_key(objects@[q], axis as int) by {
                if q < p {
                } else if q == p {
                    assert(objects@[pp] == pre[pp]);
                } else if pp == p {
                    assert(objects@[q] == pre[q - 1]);
                } else if pp < p {
                    assert(objects@[pp] == pre[pp] && objects@[q] == pre[q - 1]);
                } else {
                    assert(objects@[pp] == pre[pp - 1] && objects@[q] == pre[q - 1]);
                }
            }
            assert forall|k: int| 0 <= k < n implies (#[trigger] objects@[k]).wf() by {
                if k < p {
                    assert(objects@[k] == pre[k]);
                } else if k > p {
                    assert(objects@[k] == pre[k - 1]);
                }
            }
        }
        i = i + 1;
    }
    proof {
        assert forall|e: Entity| objects@.contains(e) <==> original.contains(e) by {
            assert(objects@.contains(e) <==> objects@.to_multiset().count(e) > 0);
            assert(original.contains(e) <==> original.to_multiset().count(e) > 0);
        }
    }
}

/// Folding over a concatenation is folding over the first part, then the
/// second under the upper bound tightened to the first part's hit — the
/// exact discipline of the hierarchy traversal.
pub proof fn lemma_sphere_fold_concat(a: Seq<Sphere>, b: Seq<Sphere>, r: Ray, t_min: int, t_max: int)
    ensures
        sphere_fold(a + b, r, t_min, t_max) == match sphere_fold(a, r, t_min, t_max) {
            Option::None => sphere_fold(b, r, t_min, t_max),
            Option::Some(r0) => match sphere_fold(b, r, t_min, r0.t as int) {
                Option::Some(r1) => Some(r1),
                Option::None => Some(r0),
            },
        },
    decreases a.len(),
{
    if a.len() == 0 {
        assert(a + b =~= b);
    } else {
        assert((a + b).drop_first() =~= a.drop_first() + b);
        assert((a + b)[0] == a[0]);
        match Sphere::hit_spec(a[0], r, t_min, t_max) {
            Option::None => {
                lemma_sphere_fold_concat(a.drop_first(), b, r, t_min, t_max);
            },
            Option::Some(h0) => {
                lemma_sphere_fold_concat(a.drop_first(), b, r, t_min, h0.t as int);
            },
        }
    }
}

/// A fold over spheres none of which hits reports no hit.
pub proof fn lemma_sphere_fold_all_miss(items: Seq<Sphere>, r: Ray, t_min: int, t_max: int)
    requires
        forall|i: int|
            0 <= i < items.len() ==> (#[trigger] Sphere::hit_spec(items[i], r, t_min, t_max))
                is None,
    ensures
        sphere_fold(items, r, t_min, t_max) is None,
    decreases items.len(),
{
    if items.len() > 0 {
        assert(Sphere::hit_spec(items[0], r, t_min, t_max) is None);
        assert forall|i: int| 0 <= i < items.drop_first().len() implies (#[trigger] Sphere::hit_spec(
            items.drop_first()[i],
            r,
            t_min,
            t_max,
        )) is None by {
            assert(items.drop_first()[i] == items[i + 1]);
        }
        lemma_sphere_fold_all_miss(items.drop_first(), r, t_min, t_max);
    }
}

/// The boxes of the hierarchy are conservative for this ray: whenever a
/// sphere below a node reports a hit in some parameter range, the node's
/// box passes the slab test over that range. This is the geometric premise
/// the pruning of the traversal relies on; it can fail only where fixed-
/// point rounding pushes a hit outside its sphere's box.
pub open spec fn box_conservative(e: Entity, r: Ray) -> bool
    decreases e,
{
    match e {
        Entity::Sphere(s) => true,
        Entity::Node(n) => {
            &&& forall|t_min: int, t_max: int, i: int|
                0 <= i < (n.left.spheres() + n.right.spheres()).len() && (#[trigger] Sphere::hit_spec(
                    (n.left.spheres() + n.right.spheres())[i],
                    r,
                    t_min,
                    t_max,
                )) is Some ==> slab_spec(n.bbox, r, t_min, t_max)
            &&& box_conservative(n.left, r)
            &&& box_conservative(n.right, r)
        },
    }
}

/// Nearest-hit agreement of the hierarchy with brute force: on a
/// well-formed hierarchy whose boxes are conservative for the ray, the
/// traversal (box pruning, left query, right query under the tightened
/// bound) reports exactly the hit of the brute-force scan over the leaf
/// spheres — the same parameter, the same record, the same entity.
pub proof fn lemma_bvh_matches_brute_force(e: Entity, r: Ray, t_min: int, t_max: int)
    requires
        e.wf(),
        box_conservative(e, r),
    ensures
        Entity::hit_spec(e, r, t_min, t_max) == sphere_fold(e.spheres(), r, t_min, t_max),
    decreases e,
{
    match e {
        Entity::Sphere(s) => {
            assert(e.spheres() =~= seq![s]);
            assert(seq![s].drop_first() =~= Seq::<Sphere>::empty());
            assert(seq![s][0] == s);
            match Sphere::hit_spec(s, r, t_min, t_max) {
                Option::None => {
                    assert(sphere_fold(seq![s], r, t_min, t_max) == sphere_fold(
                        Seq::<Sphere>::empty(),
                        r,
                        t_min,
                        t_max,
                    ));
                },
                Option::Some(h0) => {
                    assert(sphere_fold(Seq::<Sphere>::empty(), r, t_min, h0.t as int) is None);
                },
            }
        },
        Entity::Node(n) => {
            let spheres = n.left.spheres() + n.right.spheres();
            assert(e.spheres() == spheres);
            if !slab_spec(n.bbox, r, t_min, t_max) {
                assert forall|i: int| 0 <= i < spheres.len() implies (#[trigger] Sphere::hit_spec(
                    spheres[i],
                    r,
                    t_min,
                    t_max,
                )) is None by {
                    if Sphere::hit_spec(spheres[i], r, t_min, t_max) is Some {
                        assert(slab_spec(n.bbox, r, t_min, t_max));
                    }
                }
                lemma_sphere_fold_all_miss(spheres, r, t_min, t_max);
            } else {
                lemma_bvh_matches_brute_force(n.left, r, t_min, t_max);
                let lres = Entity::hit_spec(n.left, r, t_min, t_max);
                let t2: int = if lres is Some {
                    (lres->0).t as int
                } else {
                    t_max
                };
                lemma_bvh_matches_brute_force(n.right, r, t_min, t2);
                lemma_sphere_fold_concat(n.left.spheres(), n.right.spheres(), r, t_min, t_max);
            }
        },
    }
}

/// On a scene that lists bare spheres, the scene's brute-force scan is the
/// sphere-level scan of its leaves: the two reference formulations agree.
pub proof fn lemma_ent_fold_spheres(items: Seq<Entity>, r: Ray, t_min: int, t_max: int)
    requires
        forall|i: int| 0 <= i < items.len() ==> (#[trigger] items[i]) is Sphere,
    ensures
        crate::hittable_list::ent_fold(items, r, t_min, t_max) == sphere_fold(
            seq_spheres(items),
            r,
            t_min,
            t_max,
        ),
    decreases items.len(),
{
    if items.len() > 0 {
        assert(items[0] is Sphere);
        let s0 = items[0]->Sphere_0;
        assert(items[0].spheres() =~= seq![s0]);
        assert(seq_spheres(items) == items[0].spheres() + seq_spheres(items.drop_first()));
        assert(seq_spheres(items)[0] == s0) by {
            assert((seq![s0] + seq_spheres(items.drop_first()))[0] == s0);
        }
        assert(seq_spheres(items).drop_first() =~= seq_spheres(items.drop_first())) by {
            assert forall|k: int|
                0 <= k < seq_spheres(items).drop_first().len() implies seq_spheres(
                items,
            ).drop_first()[k] == seq_spheres(items.drop_first())[k] by {
                assert(seq_spheres(items)[k + 1] == seq_spheres(items.drop_first())[k]);
            }
        }
        assert forall|i: int| 0 <= i < items.drop_first().len() implies (#[trigger] items.drop_first()[
            i
        ]) is Sphere by {
            assert(items.drop_first()[i] == items[i + 1]);
        }
        match Sphere::hit_spec(s0, r, t_min, t_max) {
            Option::None => {
                lemma_ent_fold_spheres(items.drop_first(), r, t_min, t_max);
            },
            Option::Some(h0) => {
                lemma_ent_fold_spheres(items.drop_first(), r, t_min, h0.t as int);
            },
        }
        assert(Entity::hit_spec(items[0], r, t_min, t_max) == Sphere::hit_spec(s0, r, t_min, t_max));
    }
}

} // verus!
