use crate::ray::Ray;
use crate::rtweekend::{iabs, lemma_tdiv_bounds, tdiv, tdiv64, INFINITY, SCALE};
use crate::vec3::{vbounded, Point3, Vec3};
use vstd::prelude::*;

verus! {

/// An axis-aligned bounding box: a pair of corner points. Once finalized,
/// `minimum <= maximum` holds on every axis.
#[derive(Clone, Copy, PartialEq, Eq, Structural, Debug)]
pub struct Aabb {
    pub minimum: Point3,
    pub maximum: Point3,
}

/// The smaller of two fixed-point values.
pub open spec fn min64(a: i64, b: i64) -> i64 {
    if a > b {
        b
    } else {
        a
    }
}

/// The larger of two fixed-point values.
pub open spec fn max64(a: i64, b: i64) -> i64 {
    if a > b {
        a
    } else {
        b
    }
}

/// The smaller of two fixed-point values.
pub(crate) fn fmin(a: i64, b: i64) -> (r: i64)
    ensures
        r == min64(a, b),
{
    if a > b {
        b
    } else {
        a
    }
}

/// The larger of two fixed-point values.
pub(crate) fn fmax(a: i64, b: i64) -> (r: i64)
    ensures
        r == max64(a, b),
{
    if a > b {
        a
    } else {
        b
    }
}

/// Both corners bounded by `b` on every axis.
pub open spec fn box_bounded(bb: Aabb, b: int) -> bool {
    vbounded(bb.minimum, b) && vbounded(bb.maximum, b)
}

/// `outer` contains `inner`, axis by axis.
pub open spec fn box_contains_box(outer: Aabb, inner: Aabb) -> bool {
    &&& outer.minimum.x <= inner.minimum.x && inner.maximum.x <= outer.maximum.x
    &&& outer.minimum.y <= inner.minimum.y && inner.maximum.y <= outer.maximum.y
    &&& outer.minimum.z <= inner.minimum.z && inner.maximum.z <= outer.maximum.z
}

/// One slab-test step: intersect the running parameter interval
/// `(t_min, t_max)` with one axis of the box. A zero direction component
/// narrows nothing but demands the origin lie inside the slab; otherwise the
/// entry/exit parameters are taken in reciprocal-direction order (swapped
/// for a negative component). `None` means the interval became empty.
pub open spec fn narrow_spec(mn: int, mx: int, o: int, d: int, t_min: int, t_max: int) -> Option<
    (i64, i64),
> {
    if d == 0 {
        if mn <= o <= mx && t_max > t_min {
            Some(((t_min as i64), (t_max as i64)))
        } else {
            None
        }
    } else {
        let t0 = tdiv((mn - o) * SCALE, d);
        let t1 = tdiv((mx - o) * SCALE, d);
        let lo = if d < 0 {
            t1
        } else {
            t0
        };
        let hi = if d < 0 {
            t0
        } else {
            t1
        };
        let nt_min = if lo > t_min {
            lo
        } else {
            t_min
        };
        let nt_max = if hi < t_max {
            hi
        } else {
            t_max
        };
        if nt_max > nt_min {
            Some(((nt_min as i64), (nt_max as i64)))
        } else {
            None
        }
    }
}

/// The slab test as the implementation runs it: narrow the interval axis by
/// axis, giving up as soon as it becomes empty.
pub open spec fn slab_spec(bb: Aabb, r: Ray, t_min: int, t_max: int) -> bool {
    match narrow_spec(
        bb.minimum.x as int,
        bb.maximum.x as int,
        r.origin.x as int,
        r.direction.x as int,
        t_min,
        t_max,
    ) {
        Option::None => false,
        Option::Some(p0) => match narrow_spec(
            bb.minimum.y as int,
            bb.maximum.y as int,
            r.origin.y as int,
            r.direction.y as int,
            p0.0 as int,
            p0.1 as int,
        ) {
            Option::None => false,
            Option::Some(p1) => narrow_spec(
                bb.minimum.z as int,
                bb.maximum.z as int,
                r.origin.z as int,
                r.direction.z as int,
                p1.0 as int,
                p1.1 as int,
            ).is_some(),
        },
    }
}

/// Entry parameter of the ray into the slab of axis `a` (nonzero direction
/// component on that axis).
pub open spec fn axis_lo(bb: Aabb, r: Ray, a: int) -> int {
    let mn = Vec3::comp(bb.minimum, a) as int;
    let mx = Vec3::comp(bb.maximum, a) as int;
    let o = Vec3::comp(r.origin, a) as int;
    let d = Vec3::comp(r.direction, a) as int;
    if d < 0 {
        tdiv((mx - o) * SCALE, d)
    } else {
        tdiv((mn - o) * SCALE, d)
    }
}

/// Exit parameter of the ray out of the slab of axis `a` (nonzero direction
/// component on that axis).
pub open spec fn axis_hi(bb: Aabb, r: Ray, a: int) -> int {
    let mn = Vec3::comp(bb.minimum, a) as int;
    let mx = Vec3::comp(bb.maximum, a) as int;
    let o = Vec3::comp(r.origin, a) as int;
    let d = Vec3::comp(r.direction, a) as int;
    if d < 0 {
        tdiv((mn - o) * SCALE, d)
    } else {
        tdiv((mx - o) * SCALE, d)
    }
}

/// On every axis the ray travels parallel to, its origin lies inside the
/// slab of the box.
pub open spec fn zero_axes_inside(bb: Aabb, r: Ray) -> bool {
    &&& r.direction.x == 0 ==> bb.minimum.x <= r.origin.x <= bb.maximum.x
    &&& r.direction.y == 0 ==> bb.minimum.y <= r.origin.y <= bb.maximum.y
    &&& r.direction.z == 0 ==> bb.minimum.z <= r.origin.z <= bb.maximum.z
}

/// The greatest of `t_min` and every non-parallel axis entry parameter.
pub open spec fn brute_lo(bb: Aabb, r: Ray, t_min: int) -> int {
    let m0 = if r.direction.x != 0 && axis_lo(bb, r, 0) > t_min {
        axis_lo(bb, r, 0)
    } else {
        t_min
    };
    let m1 = if r.direction.y != 0 && axis_lo(bb, r, 1) > m0 {
        axis_lo(bb, r, 1)
    } else {
        m0
    };
    if r.direction.z != 0 && axis_lo(bb, r, 2) > m1 {
        axis_lo(bb, r, 2)
    } else {
        m1
    }
}

/// The least of `t_max` and every non-parallel axis exit parameter.
pub open spec fn brute_hi(bb: Aabb, r: Ray, t_max: int) -> int {
    let m0 = if r.direction.x != 0 && axis_hi(bb, r, 0) < t_max {
        axis_hi(bb, r, 0)
    } else {
        t_max
    };
    let m1 = if r.direction.y != 0 && axis_hi(bb, r, 1) < m0 {
        axis_hi(bb, r, 1)
    } else {
        m0
    };
    if r.direction.z != 0 && axis_hi(bb, r, 2) < m1 {
        axis_hi(bb, r, 2)
    } else {
        m1
    }
}

/// The brute-force per-axis interval-intersection check: compute every
/// axis interval first, intersect them all with `[t_min, t_max]`, and ask
/// whether the result is nonempty (with parallel axes demanding the origin
/// inside their slab).
pub open spec fn brute_hit_spec(bb: Aabb, r: Ray, t_min: int, t_max: int) -> bool {
    zero_axes_inside(bb, r) && brute_lo(bb, r, t_min) < brute_hi(bb, r, t_max)
}

/// The slab test (incremental narrowing with an early exit) agrees with the
/// brute-force per-axis interval-intersection check on every ray and box,
/// parallel (zero direction component) axes included.
pub proof fn lemma_slab_equals_brute(bb: Aabb, r: Ray, t_min: int, t_max: int)
    requires
        box_bounded(bb, 0x4000_0000),
        r.wf(),
        iabs(t_min) <= INFINITY as int,
        iabs(t_max) <= INFINITY as int,
    ensures
        slab_spec(bb, r, t_min, t_max) == brute_hit_spec(bb, r, t_min, t_max),
{
    if r.direction.x != 0 {
        lemma_tdiv_bounds((bb.minimum.x - r.origin.x) * SCALE, r.direction.x as int);
        lemma_tdiv_bounds((bb.maximum.x - r.origin.x) * SCALE, r.direction.x as int);
    }
    if r.direction.y != 0 {
        lemma_tdiv_bounds((bb.minimum.y - r.origin.y) * SCALE, r.direction.y as int);
        lemma_tdiv_bounds((bb.maximum.y - r.origin.y) * SCALE, r.direction.y as int);
    }
    if r.direction.z != 0 {
        lemma_tdiv_bounds((bb.minimum.z - r.origin.z) * SCALE, r.direction.z as int);
        lemma_tdiv_bounds((bb.maximum.z - r.origin.z) * SCALE, r.direction.z as int);
    }
}

/// One slab-test step, executable.
fn axis_narrow(mn: i64, mx: i64, o: i64, d: i64, t_min: i64, t_max: i64) -> (res: Option<
    (i64, i64),
>)
    requires
        iabs(mn as int) <= 0x4000_0000,
        iabs(mx as int) <= 0x4000_0000,
        iabs(o as int) <= 0x4000_0000,
        iabs(d as int) <= 0x4000_0000,
        iabs(t_min as int) <= INFINITY as int,
        iabs(t_max as int) <= INFINITY as int,
    ensures
        res == narrow_spec(mn as int, mx as int, o as int, d as int, t_min as int, t_max as int),
        res is Some ==> iabs((res->0).0 as int) <= INFINITY as int && iabs(
            (res->0).1 as int) <= INFINITY as int,
{
    if d == 0 {
        if mn <= o && o <= mx && t_max > t_min {
            Some((t_min, t_max))
        } else {
            None
        }
    } else {
        let t0 = tdiv64((mn - o) * SCALE, d);
        let t1 = tdiv64((mx - o) * SCALE, d);
        let (lo, hi) = if d < 0 {
            (t1, t0)
        } else {
            (t0, t1)
        };
        let nt_min = if lo > t_min {
            lo
        } else {
            t_min
        };
        let nt_max = if hi < t_max {
            hi
        } else {
            t_max
        };
        if nt_max > nt_min {
            Some((nt_min, nt_max))
        } else {
            None
        }
    }
}

impl Aabb {
    pub fn new(minimum: Point3, maximum: Point3) -> (r: Aabb)
        ensures
            r == (Aabb { minimum, maximum }),
    {
        Aabb { minimum, maximum }
    }

    /// Whether the ray's parametric segment within `[t_min, t_max]` passes
    /// the slab test against this box. The result equals both the
    /// incremental formulation and the brute-force per-axis
    /// interval-intersection check.
    pub fn hit(&self, r: &Ray, t_min: i64, t_max: i64) -> (res: bool)
        requires
            box_bounded(*self, 0x4000_0000),
            r.wf(),
            iabs(t_min as int) <= INFINITY as int,
            iabs(t_max as int) <= INFINITY as int,
        ensures
            res == slab_spec(*self, *r, t_min as int, t_max as int),
            res == brute_hit_spec(*self, *r, t_min as int, t_max as int),
    {
        proof {
            lemma_slab_equals_brute(*self, *r, t_min as int, t_max as int);
        }
        let s0 = axis_narrow(
            self.minimum.x,
            self.maximum.x,
            r.origin.x,
            r.direction.x,
            t_min,
            t_max,
        );
        match s0 {
            None => false,
            Some((a0, b0)) => {
                let s1 = axis_narrow(
                    self.minimum.y,
                    self.maximum.y,
                    r.origin.y,
                    r.direction.y,
                    a0,
                    b0,
                );
                match s1 {
                    None => false,
                    Some((a1, b1)) => {
                        let s2 = axis_narrow(
                            self.minimum.z,
                            self.maximum.z,
                            r.origin.z,
                            r.direction.z,
                            a1,
                            b1,
                        );
                        s2.is_some()
                    },
                }
            },
        }
    }
}

/// The tightest box containing both arguments: the component-wise minimum
/// of the minimums and maximum of the maximums.
pub open spec fn surrounding_box_spec(box0: Aabb, box1: Aabb) -> Aabb {
    Aabb {
        minimum: Vec3 {
            x: min64(box0.minimum.x, box1.minimum.x),
            y: min64(box0.minimum.y, box1.minimum.y),
            z: min64(box0.minimum.z, box1.minimum.z),
        },
        maximum: Vec3 {
            x: max64(box0.maximum.x, box1.maximum.x),
            y: max64(box0.maximum.y, box1.maximum.y),
            z: max64(box0.maximum.z, box1.maximum.z),
        },
    }
}

/// The tightest box containing both arguments: it contains each of them,
/// and (see `lemma_surrounding_box_tightest`) every box containing both
/// contains it.
pub fn surrounding_box(box0: Aabb, box1: Aabb) -> (r: Aabb)
    ensures
        r == surrounding_box_spec(box0, box1),
        box_contains_box(r, box0),
        box_contains_box(r, box1),
{
    let small = Point3::new(
        fmin(box0.minimum.x, box1.minimum.x),
        fmin(box0.minimum.y, box1.minimum.y),
        fmin(box0.minimum.z, box1.minimum.z),
    );
    let big = Point3::new(
        fmax(box0.maximum.x, box1.maximum.x),
        fmax(box0.maximum.y, box1.maximum.y),
        fmax(box0.maximum.z, box1.maximum.z),
    );
    Aabb { minimum: small, maximum: big }
}

/// Minimality of `surrounding_box`: any box containing both arguments
/// contains their surrounding box, which is therefore the tightest one.
pub proof fn lemma_surrounding_box_tightest(box0: Aabb, box1: Aabb, outer: Aabb)
    requires
        box_contains_box(outer, box0),
        box_contains_box(outer, box1),
    ensures
        box_contains_box(outer, surrounding_box_spec(box0, box1)),
{
}

} // verus!
