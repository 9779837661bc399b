use raytrace_core::aabb::{surrounding_box, Aabb};
use raytrace_core::bvh::BVHNode;
use raytrace_core::hittable::{Entity, HitRecord};
use raytrace_core::hittable_list::HittableList;
use raytrace_core::material::{reflectance, Dielectric, Lambertian, Material, Metal};
use raytrace_core::ray::Ray;
use raytrace_core::rtweekend::{clamp, isqrt, rand_01, rand_double, rand_int, tdiv64, INFINITY, SCALE};
use raytrace_core::sphere::Sphere;
use raytrace_core::vec3::{
    cross, dot, random_in_hemisphere, random_in_unit_disk, random_in_unit_sphere,
    random_unit_vector, reflect, refract, Vec3,
};

fn gray() -> Material {
    Material::Lambertian(Lambertian::new(Vec3::new(SCALE / 2, SCALE / 2, SCALE / 2)))
}

#[test]
fn tdiv64_truncates_toward_zero() {
    assert_eq!(tdiv64(7, 2), 3);
    assert_eq!(tdiv64(-7, 2), -3);
    assert_eq!(tdiv64(7, -2), -3);
    assert_eq!(tdiv64(-7, -2), 3);
    assert_eq!(tdiv64(0, 5), 0);
}

#[test]
fn isqrt_rounds_down() {
    assert_eq!(isqrt(0), 0);
    assert_eq!(isqrt(10), 3);
    assert_eq!(isqrt(16), 4);
    assert_eq!(isqrt((SCALE as u128) * (SCALE as u128)), SCALE as u128);
}

#[test]
fn clamp_bounds() {
    assert_eq!(clamp(5, 0, 10), 5);
    assert_eq!(clamp(-5, 0, 10), 0);
    assert_eq!(clamp(15, 0, 10), 10);
}

#[test]
fn rand_wrappers_stay_in_range() {
    for _ in 0..200 {
        let a = rand_01();
        assert!(0 <= a && a < SCALE);
        let b = rand_double(5, 10);
        assert!(5 <= b && b < 10);
        let c = rand_int(0, 2);
        assert!(0 <= c && c <= 2);
        let p = random_in_unit_sphere();
        assert!(dot(&p, &p) < SCALE * SCALE);
        let q = random_in_unit_disk();
        assert_eq!(q.z, 0);
        assert!(dot(&q, &q) < SCALE * SCALE);
    }
}

#[test]
fn rand_wrappers_actually_draw() {
    // A stuck generator returning one value over and over would pass the
    // range checks; many draws must show variety.
    let mut distinct_01 = std::collections::HashSet::new();
    let mut distinct_int = std::collections::HashSet::new();
    for _ in 0..64 {
        distinct_01.insert(rand_01());
        distinct_int.insert(rand_int(0, 1_000_000));
    }
    assert!(distinct_01.len() > 1);
    assert!(distinct_int.len() > 1);
}

#[test]
fn bvh_over_single_entity_duplicates_leaf_safely() {
    let mut world = HittableList::default();
    world.add(Entity::Sphere(Sphere::new(Vec3::new(0, 0, -10 * SCALE), SCALE, gray())));
    let tree = BVHNode::new(&world, 0, 0);
    let bvh_world = HittableList::new(Entity::Node(Box::new(tree)));
    let r = Ray::ray(Vec3::new(0, 0, 0), Vec3::new(0, 0, -SCALE), 0);
    assert_eq!(world.hit(&r, 66, INFINITY), bvh_world.hit(&r, 66, INFINITY));
    let miss = Ray::ray(Vec3::new(0, 0, 0), Vec3::new(0, SCALE, 0), 0);
    assert!(bvh_world.hit(&miss, 66, INFINITY).is_none());
}

#[test]
fn vec3_fixed_point_arithmetic() {
    let half = Vec3::new(SCALE / 2, SCALE / 2, SCALE / 2);
    let quarter = half.mul(&half);
    assert_eq!(quarter, Vec3::new(SCALE / 4, SCALE / 4, SCALE / 4));
    let v = Vec3::new(3 * SCALE, 4 * SCALE, 0);
    assert_eq!(v.length_squared(), 25 * SCALE * SCALE);
    assert_eq!(v.length(), 5 * SCALE);
    let u = v.unit_vector();
    // 0.6 and 0.8, rounded toward zero in fixed point.
    assert_eq!(u, Vec3::new(39321, 52428, 0));
    let x = Vec3::new(SCALE, 0, 0);
    let y = Vec3::new(0, SCALE, 0);
    assert_eq!(cross(&x, &y), Vec3::new(0, 0, SCALE));
}

#[test]
fn surrounding_box_is_tight() {
    let a = Aabb::new(Vec3::new(0, 0, 0), Vec3::new(10, 10, 10));
    let b = Aabb::new(Vec3::new(-5, 3, 2), Vec3::new(4, 20, 7));
    let u = surrounding_box(a, b);
    assert_eq!(u.minimum, Vec3::new(-5, 0, 0));
    assert_eq!(u.maximum, Vec3::new(10, 20, 10));
    // It contains both inputs.
    assert!(u.minimum.x <= a.minimum.x && a.maximum.x <= u.maximum.x);
    assert!(u.minimum.y <= b.minimum.y && b.maximum.y <= u.maximum.y);
}

#[test]
fn slab_test_basic_hit_and_miss() {
    let unit_box = Aabb::new(
        Vec3::new(-SCALE, -SCALE, -SCALE),
        Vec3::new(SCALE, SCALE, SCALE),
    );
    let toward = Ray::ray(Vec3::new(0, 0, -10 * SCALE), Vec3::new(0, 0, SCALE), 0);
    assert!(unit_box.hit(&toward, 0, INFINITY));
    let away = Ray::ray(Vec3::new(0, 0, -10 * SCALE), Vec3::new(0, 0, -SCALE), 0);
    assert!(!unit_box.hit(&away, 0, INFINITY));
    let sideways = Ray::ray(Vec3::new(0, 5 * SCALE, -10 * SCALE), Vec3::new(0, 0, SCALE), 0);
    assert!(!unit_box.hit(&sideways, 0, INFINITY));
}

#[test]
fn slab_test_axis_parallel_directions() {
    let unit_box = Aabb::new(
        Vec3::new(-SCALE, -SCALE, -SCALE),
        Vec3::new(SCALE, SCALE, SCALE),
    );
    // Direction has zero x and y components; origin inside both slabs.
    let inside = Ray::ray(Vec3::new(0, 0, -10 * SCALE), Vec3::new(0, 0, SCALE), 0);
    assert!(unit_box.hit(&inside, 0, INFINITY));
    // Zero-component axis with origin outside that slab: a guaranteed miss.
    let outside = Ray::ray(Vec3::new(3 * SCALE, 0, -10 * SCALE), Vec3::new(0, 0, SCALE), 0);
    assert!(!unit_box.hit(&outside, 0, INFINITY));
    // A degenerate ray resting inside the box passes every parallel slab.
    let still = Ray::ray(Vec3::new(0, 0, 0), Vec3::new(0, 0, 0), 0);
    assert!(unit_box.hit(&still, 0, INFINITY));
}

#[test]
fn sphere_hit_head_on() {
    let s = Sphere::new(Vec3::new(0, 0, 0), SCALE, gray());
    let r = Ray::ray(Vec3::new(0, 0, -10 * SCALE), Vec3::new(0, 0, SCALE), 0);
    let rec = s.hit(&r, 0, INFINITY).expect("must hit");
    assert_eq!(rec.t, 9 * SCALE);
    assert_eq!(rec.p, Vec3::new(0, 0, -SCALE));
    assert_eq!(rec.normal, Vec3::new(0, 0, -SCALE));
    assert!(rec.front_face);
    assert_eq!(rec.mat, gray());
}

#[test]
fn sphere_miss_cases() {
    let s = Sphere::new(Vec3::new(0, 0, 0), SCALE, gray());
    // Pointing away: both roots negative, outside [0, inf).
    let away = Ray::ray(Vec3::new(0, 0, -10 * SCALE), Vec3::new(0, 0, -SCALE), 0);
    assert!(away.direction().z < 0);
    assert!(s.hit(&away, 0, INFINITY).is_none());
    // Offset so the discriminant is negative.
    let wide = Ray::ray(Vec3::new(0, 5 * SCALE, -10 * SCALE), Vec3::new(0, 0, SCALE), 0);
    assert!(s.hit(&wide, 0, INFINITY).is_none());
    // Range excludes the hit.
    assert!(s.hit(&Ray::ray(Vec3::new(0, 0, -10 * SCALE), Vec3::new(0, 0, SCALE), 0), 0, 8 * SCALE).is_none());
}

#[test]
fn sphere_inner_root_from_inside() {
    // From the center, the first root is behind; the second, ahead at r.
    let s = Sphere::new(Vec3::new(0, 0, 0), SCALE, gray());
    let r = Ray::ray(Vec3::new(0, 0, 0), Vec3::new(0, 0, SCALE), 0);
    let rec = s.hit(&r, 0, INFINITY).expect("must hit from inside");
    assert_eq!(rec.t, SCALE);
    assert_eq!(rec.p, Vec3::new(0, 0, SCALE));
    // Struck from inside: the stored normal is flipped inward.
    assert!(!rec.front_face);
    assert_eq!(rec.normal, Vec3::new(0, 0, -SCALE));
}

#[test]
fn sphere_bounding_box_is_center_plus_minus_radius() {
    let s = Sphere::new(Vec3::new(100, -50, 3), 7, gray());
    let bb = s.bounding_box(0, 0);
    assert_eq!(bb.minimum, Vec3::new(93, -57, -4));
    assert_eq!(bb.maximum, Vec3::new(107, -43, 10));
}

#[test]
fn scene_list_keeps_nearest_hit() {
    let mut world = HittableList::default();
    world.add(Entity::Sphere(Sphere::new(Vec3::new(0, 0, -20 * SCALE), SCALE, gray())));
    world.add(Entity::Sphere(Sphere::new(Vec3::new(0, 0, -5 * SCALE), SCALE, gray())));
    let r = Ray::ray(Vec3::new(0, 0, 0), Vec3::new(0, 0, -SCALE), 0);
    let rec = world.hit(&r, 0, INFINITY).expect("must hit");
    assert_eq!(rec.t, 4 * SCALE);
    assert_eq!(rec.p, Vec3::new(0, 0, -4 * SCALE));
}

#[test]
fn scene_bounding_box_unions_members() {
    let mut world = HittableList::default();
    assert!(world.bounding_box(0, 0).is_none());
    world.add(Entity::Sphere(Sphere::new(Vec3::new(0, 0, 0), 2, gray())));
    world.add(Entity::Sphere(Sphere::new(Vec3::new(10, 0, 0), 3, gray())));
    let bb = world.bounding_box(0, 0).expect("nonempty scene has a box");
    assert_eq!(bb.minimum, Vec3::new(-2, -3, -3));
    assert_eq!(bb.maximum, Vec3::new(13, 3, 3));
}

#[test]
fn hit_record_face_normal_orientation() {
    let mut rec = HitRecord::default();
    let outward = Vec3::new(0, 0, -SCALE);
    let from_outside = Ray::ray(Vec3::new(0, 0, -10 * SCALE), Vec3::new(0, 0, SCALE), 0);
    rec.set_face_normal(&from_outside, &outward);
    assert!(rec.front_face);
    assert_eq!(rec.normal, outward);
    let from_inside = Ray::ray(Vec3::new(0, 0, 0), Vec3::new(0, 0, -SCALE), 0);
    rec.set_face_normal(&from_inside, &outward);
    assert!(!rec.front_face);
    assert_eq!(rec.normal, Vec3::new(0, 0, SCALE));
}

fn demo_scene() -> HittableList {
    let mut world = HittableList::default();
    let mats = [
        Material::Lambertian(Lambertian::new(Vec3::new(SCALE, 0, 0))),
        Material::Metal(Metal::new(Vec3::new(0, SCALE, 0), 0)),
        Material::Dielectric(Dielectric::new(3 * SCALE / 2)),
        Material::Lambertian(Lambertian::new(Vec3::new(0, 0, SCALE))),
        Material::Metal(Metal::new(Vec3::new(SCALE, SCALE, 0), SCALE / 4)),
    ];
    let centers = [
        Vec3::new(0, 0, -10 * SCALE),
        Vec3::new(5 * SCALE, 0, -14 * SCALE),
        Vec3::new(-4 * SCALE, 3 * SCALE, -8 * SCALE),
        Vec3::new(2 * SCALE, -3 * SCALE, -20 * SCALE),
        Vec3::new(-6 * SCALE, -5 * SCALE, -16 * SCALE),
    ];
    for i in 0..5 {
        world.add(Entity::Sphere(Sphere::new(centers[i], SCALE, mats[i])));
    }
    world
}

#[test]
fn bvh_matches_brute_force_on_a_sphere_battery() {
    let world = demo_scene();
    let tree = BVHNode::new(&world, 0, 0);
    let bvh_world = HittableList::new(Entity::Node(Box::new(tree)));
    let mut targets = vec![
        Vec3::new(0, 0, -SCALE),
        Vec3::new(SCALE / 3, 0, -SCALE),
        Vec3::new(-SCALE / 3, SCALE / 4, -SCALE),
        Vec3::new(SCALE / 2, -SCALE / 3, -2 * SCALE),
        Vec3::new(0, SCALE, 0),
    ];
    for i in -8..8 {
        targets.push(Vec3::new((i as i64) * SCALE / 8, SCALE / 5, -SCALE));
        targets.push(Vec3::new((i as i64) * SCALE / 7, -SCALE / 6, -2 * SCALE));
    }
    for dir in targets {
        let r = Ray::ray(Vec3::new(0, 0, 0), dir, 0);
        let brute = world.hit(&r, 66, INFINITY);
        let fast = bvh_world.hit(&r, 66, INFINITY);
        // Same nearest hit: same parameter, same record, same material
        // (hence the same entity).
        assert_eq!(brute, fast);
    }
}

#[test]
fn nearest_hit_monotone_under_range_widening() {
    let world = demo_scene();
    let r = Ray::ray(Vec3::new(0, 0, 0), Vec3::new(0, 0, -SCALE), 0);
    let wide = world.hit(&r, 0, INFINITY).expect("hits the front sphere");
    assert_eq!(wide.t, 9 * SCALE);
    // A narrower range that still contains the hit reports the same hit.
    let narrow = world.hit(&r, 0, 9 * SCALE).expect("still inside the range");
    assert_eq!(narrow, wide);
    // A range that ends before the hit reports nothing (never a farther hit).
    assert!(world.hit(&r, 0, 8 * SCALE).is_none());
}

#[test]
fn lambertian_scatter_preserves_albedo_and_origin() {
    let albedo = Vec3::new(SCALE / 3, SCALE / 5, SCALE / 7);
    let mat = Material::Lambertian(Lambertian::new(albedo));
    let rec = HitRecord {
        p: Vec3::new(100, 200, -300),
        normal: Vec3::new(0, SCALE, 0),
        mat,
        t: SCALE,
        front_face: true,
    };
    let r_in = Ray::ray(Vec3::new(0, 0, 0), Vec3::new(0, -SCALE, 0), 42);
    for _ in 0..50 {
        let (attenuation, scattered) = mat.scatter(&r_in, &rec).expect("diffuse always scatters");
        assert_eq!(attenuation, albedo);
        assert_eq!(*scattered.origin(), rec.p);
        assert_eq!(scattered.time(), 42);
    }
}

#[test]
fn metal_zero_fuzz_mirrors_exactly() {
    let albedo = Vec3::new(SCALE, SCALE, SCALE);
    let mat = Material::Metal(Metal::new(albedo, 0));
    let rec = HitRecord {
        p: Vec3::new(0, 0, 0),
        normal: Vec3::new(0, SCALE, 0),
        mat,
        t: SCALE,
        front_face: true,
    };
    // Incoming at 45 degrees in the xy plane: unit(1, -1, 0).
    let r_in = Ray::ray(Vec3::new(-SCALE, SCALE, 0), Vec3::new(SCALE, -SCALE, 0), 0);
    let (attenuation, scattered) = mat.scatter(&r_in, &rec).expect("reflects away from surface");
    assert_eq!(attenuation, albedo);
    // Angle of reflection equals angle of incidence: the y component flips
    // exactly, x and z are untouched.
    assert_eq!(*scattered.direction(), Vec3::new(46341, 46341, 0));
    // Grazing into the surface is absorbed.
    let rec_down = HitRecord { normal: Vec3::new(0, -SCALE, 0), ..rec };
    assert!(mat.scatter(&r_in, &rec_down).is_none());
}

#[test]
fn metal_new_clamps_fuzz() {
    let m = Metal::new(Vec3::new(SCALE, SCALE, SCALE), 3 * SCALE);
    assert_eq!(m.fuzz, SCALE);
    let m2 = Metal::new(Vec3::new(SCALE, SCALE, SCALE), 5);
    assert_eq!(m2.fuzz, 5);
    let m3 = Metal::new(Vec3::new(SCALE, SCALE, SCALE), -7);
    assert_eq!(m3.fuzz, 0);
}

#[test]
fn metal_positive_fuzz_scatters_when_mirror_clears_surface() {
    // The mirror direction points straight along the normal; no admissible
    // perturbation can pull it back into the surface, so every draw
    // scatters.
    let mat = Material::Metal(Metal::new(Vec3::new(SCALE, SCALE, SCALE), 5));
    let rec = HitRecord {
        p: Vec3::new(0, 0, 0),
        normal: Vec3::new(0, SCALE, 0),
        mat,
        t: SCALE,
        front_face: true,
    };
    let r_in = Ray::ray(Vec3::new(0, 2 * SCALE, 0), Vec3::new(0, -2 * SCALE, 0), 0);
    for _ in 0..50 {
        let (_, scattered) = mat.scatter(&r_in, &rec).expect("must scatter");
        assert!(dot(scattered.direction(), &rec.normal) > 0);
    }
}

#[test]
fn dielectric_unit_index_always_passes_straight_through() {
    // Refraction ratio exactly one: no Schlick draw is consulted, and the
    // straight-in ray keeps its exact unit direction.
    let mat = Material::Dielectric(Dielectric::new(SCALE));
    let rec = HitRecord {
        p: Vec3::new(0, 0, 0),
        normal: Vec3::new(0, 0, -SCALE),
        mat,
        t: SCALE,
        front_face: true,
    };
    let r_in = Ray::ray(Vec3::new(0, 0, -5 * SCALE), Vec3::new(0, 0, 2 * SCALE), 0);
    for _ in 0..50 {
        let (attenuation, scattered) = mat.scatter(&r_in, &rec).expect("glass always scatters");
        assert_eq!(attenuation, Vec3::new(SCALE, SCALE, SCALE));
        assert_eq!(*scattered.direction(), Vec3::new(0, 0, SCALE));
    }
}

#[test]
fn dielectric_total_internal_reflection_is_deterministic() {
    // Exiting a dense medium at 45 degrees with index 4: the sine times the
    // ratio far exceeds one, so every draw reflects, exactly.
    let mat = Material::Dielectric(Dielectric::new(4 * SCALE));
    let rec = HitRecord {
        p: Vec3::new(0, 0, 0),
        normal: Vec3::new(0, SCALE, 0),
        mat,
        t: SCALE,
        front_face: false,
    };
    let r_in = Ray::ray(Vec3::new(-SCALE, SCALE, 0), Vec3::new(SCALE, -SCALE, 0), 0);
    for _ in 0..50 {
        let (_, scattered) = mat.scatter(&r_in, &rec).expect("glass always scatters");
        assert_eq!(*scattered.direction(), Vec3::new(46341, 46341, 0));
    }
}

#[test]
fn random_unit_vector_is_near_unit_and_nonzero() {
    for _ in 0..100 {
        let u = random_unit_vector();
        let ls = dot(&u, &u);
        assert!(ls > (SCALE / 2) * (SCALE / 2));
        assert!(ls <= 3 * SCALE * SCALE);
        assert_ne!(u, Vec3::new(0, 0, 0));
    }
}

#[test]
fn random_in_hemisphere_stays_in_sphere_and_hemisphere() {
    let normal = Vec3::new(0, SCALE, 0);
    for _ in 0..100 {
        let v = random_in_hemisphere(&normal);
        assert!(dot(&v, &normal) >= 0);
        assert!(dot(&v, &v) < SCALE * SCALE);
    }
}

#[test]
fn reflect_mirrors_axis_aligned() {
    let v = Vec3::new(46340, -46340, 0);
    let n = Vec3::new(0, SCALE, 0);
    assert_eq!(reflect(v, n), Vec3::new(46340, 46340, 0));
}

#[test]
fn refract_is_identity_at_unit_ratio_straight_in() {
    let uv = Vec3::new(0, 0, SCALE);
    let n = Vec3::new(0, 0, -SCALE);
    assert_eq!(refract(uv, n, SCALE), uv);
}

#[test]
fn dielectric_always_scatters_white_from_hit_point() {
    let mat = Material::Dielectric(Dielectric::new(3 * SCALE / 2));
    let rec = HitRecord {
        p: Vec3::new(10, 20, 30),
        normal: Vec3::new(0, 0, -SCALE),
        mat,
        t: SCALE,
        front_face: true,
    };
    let r_in = Ray::ray(Vec3::new(0, 0, -10 * SCALE), Vec3::new(0, 0, SCALE), 7);
    for _ in 0..50 {
        let (attenuation, scattered) = mat.scatter(&r_in, &rec).expect("glass always scatters");
        assert_eq!(attenuation, Vec3::new(SCALE, SCALE, SCALE));
        assert_eq!(*scattered.origin(), rec.p);
        assert_eq!(scattered.time(), 7);
    }
}

#[test]
fn reflectance_extremes() {
    // Head-on through vacuum: no Schlick term, no base reflectance.
    assert_eq!(reflectance(SCALE, SCALE), 0);
    // Grazing through vacuum: full reflectance.
    assert_eq!(reflectance(0, SCALE), SCALE);
}

#[test]
fn integrator_depth_zero_is_black() {
    let world = demo_scene();
    let r = Ray::ray(Vec3::new(0, 0, 0), Vec3::new(0, 0, -SCALE), 0);
    assert_eq!(
        raytrace_core::render::ray_color(&r, &world, 0),
        Vec3::new(0, 0, 0)
    );
    let empty = HittableList::default();
    assert_eq!(
        raytrace_core::render::ray_color(&r, &empty, 0),
        Vec3::new(0, 0, 0)
    );
}

#[test]
fn integrator_single_bounce_hit_is_black() {
    // With one bounce left, any hit exhausts the budget: the recursive call
    // returns black and every attenuation of black is black.
    let world = demo_scene();
    let r = Ray::ray(Vec3::new(0, 0, 0), Vec3::new(0, 0, -SCALE), 0);
    for _ in 0..20 {
        assert_eq!(
            raytrace_core::render::ray_color(&r, &world, 1),
            Vec3::new(0, 0, 0)
        );
    }
}

#[test]
fn integrator_empty_scene_is_exact_background() {
    let empty = HittableList::default();
    // Straight up: pure sky blue.
    let up = Ray::ray(Vec3::new(0, 0, 0), Vec3::new(0, 2 * SCALE, 0), 0);
    assert_eq!(
        raytrace_core::render::ray_color(&up, &empty, 50),
        Vec3::new(32768, 45875, SCALE)
    );
    // Straight down: pure white.
    let down = Ray::ray(Vec3::new(0, 0, 0), Vec3::new(0, -3 * SCALE, 0), 0);
    assert_eq!(
        raytrace_core::render::ray_color(&down, &empty, 50),
        Vec3::new(SCALE, SCALE, SCALE)
    );
    // Horizontal: the midpoint blend of white and sky blue.
    let level = Ray::ray(Vec3::new(0, 0, 0), Vec3::new(SCALE, 0, 0), 0);
    assert_eq!(
        raytrace_core::render::ray_color(&level, &empty, 50),
        Vec3::new(32768 + 16384, 32768 + 22937, SCALE)
    );
}

#[test]
fn integrator_colors_stay_in_range() {
    let world = demo_scene();
    for i in -5..5 {
        let r = Ray::ray(
            Vec3::new(0, 0, 0),
            Vec3::new((i as i64) * SCALE / 5, SCALE / 9, -SCALE),
            0,
        );
        let c = raytrace_core::render::ray_color(&r, &world, 8);
        assert!(0 <= c.x && c.x <= SCALE);
        assert!(0 <= c.y && c.y <= SCALE);
        assert!(0 <= c.z && c.z <= SCALE);
    }
}
