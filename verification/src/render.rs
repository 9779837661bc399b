use crate::hittable_list::{ent_fold, HittableList};
use crate::material::Material;
use crate::ray::Ray;
use crate::rtweekend::{lemma_tdiv_sign, tdiv, INFINITY, SCALE, T_EPSILON};
use crate::vec3::{color_in_range, dot3, lemma_tdiv_le, reflect_spec, Color, Vec3};
use vstd::prelude::*;

verus! {

/// The sky colour at full height: light blue.
pub open spec fn sky_blue_spec() -> Color {
    Vec3 { x: 32768, y: 45875, z: SCALE }
}

/// The background gradient: blend white into sky blue by the unit
/// direction's height, mapped from [-1, 1] to [0, 1].
pub open spec fn background_spec(r: Ray) -> Color {
    let unit = Vec3::unit_spec(r.direction);
    let t = tdiv(unit.y + SCALE, 2);
    Vec3 {
        x: (tdiv(SCALE * (SCALE - t), SCALE as int) + tdiv(32768 * t, SCALE as int)) as i64,
        y: (tdiv(SCALE * (SCALE - t), SCALE as int) + tdiv(45875 * t, SCALE as int)) as i64,
        z: (tdiv(SCALE * (SCALE - t), SCALE as int) + tdiv(SCALE * t, SCALE as int)) as i64,
    }
}

/// Computes the background gradient for a ray that hits nothing.
fn background(r: &Ray) -> (c: Color)
    requires
        r.wf(),
    ensures
        c == background_spec(*r),
        color_in_range(c),
{
    let unit_direction = r.direction().unit_vector();
    let t = (unit_direction.y + SCALE) / 2;
    proof {
        lemma_background_channel(32768, t as int);
        lemma_background_channel(45875, t as int);
        lemma_background_channel(SCALE as int, t as int);
    }
    let white = Vec3::new(SCALE, SCALE, SCALE);
    let sky = Vec3::new(32768, 45875, SCALE);
    white.mul_s(SCALE - t).add(&sky.mul_s(t))
}

/// One colour channel of the background blend stays inside [0, 1]: the
/// white part contributes exactly `1 - t`, the sky part at most `t`.
proof fn lemma_background_channel(c: int, t: int)
    requires
        0 <= t <= SCALE,
        0 <= c <= SCALE,
    ensures
        tdiv(SCALE * (SCALE - t), SCALE as int) == SCALE - t,
        0 <= tdiv(c * t, SCALE as int) <= t,
        0 <= tdiv(SCALE * (SCALE - t), SCALE as int) + tdiv(c * t, SCALE as int) <= SCALE,
{
    assert(SCALE * (SCALE - t) == (SCALE - t) * SCALE) by (nonlinear_arith);
    assert(tdiv((SCALE - t) * SCALE, SCALE as int) == SCALE - t) by {
        vstd::arithmetic::div_mod::lemma_div_by_multiple(SCALE - t, SCALE as int);
    }
    assert(0 <= c * t <= t * SCALE) by (nonlinear_arith)
        requires
            0 <= t,
            0 <= c <= SCALE,
    ;
    lemma_tdiv_le(c * t, SCALE as int, t);
    lemma_tdiv_sign(c * t, SCALE as int);
}

/// The recursive Monte-Carlo integrator: with no bounces left, black; on a
/// miss, the background gradient, exactly; on a hit, the material's
/// attenuation folded multiplicatively into the colour of the scattered
/// ray, or black on absorption. Every channel of the result stays inside
/// [0, 1] (energy is never created). Two hit outcomes are independent of
/// every random draw and pinned exactly: with a single bounce left, a hit
/// returns black (the recursion bottoms out and any attenuation of black
/// is black); and a hit on a zero-fuzz metal whose mirror direction does
/// not clear the surface is absorbed, returning black.
pub fn ray_color(r: &Ray, world: &HittableList, depth: i32) -> (c: Color)
    requires
        world.wf(),
        r.wf(),
    ensures
        color_in_range(c),
        depth <= 0 ==> c == (Vec3 { x: 0, y: 0, z: 0 }),
        depth > 0 && ent_fold(world.objects@, *r, T_EPSILON as int, INFINITY as int) is None ==> c
            == background_spec(*r),
        depth > 0 && world.objects@.len() == 0 ==> c == background_spec(*r),
        depth == 1 && ent_fold(world.objects@, *r, T_EPSILON as int, INFINITY as int) is Some ==> c
            == (Vec3 { x: 0, y: 0, z: 0 }),
        depth > 0 && (ent_fold(world.objects@, *r, T_EPSILON as int, INFINITY as int) matches Some(
            rec,
        ) && rec.mat matches Material::Metal(m) && m.fuzz == 0 && dot3(
            reflect_spec(Vec3::unit_spec(r.direction), rec.normal),
            rec.normal,
        ) <= 0) ==> c == (Vec3 { x: 0, y: 0, z: 0 }),
    decreases depth,
{
    if depth <= 0 {
        return Vec3::new(0, 0, 0);
    }
    match world.hit(r, T_EPSILON, INFINITY) {
        Some(rec) => {
            match rec.mat.scatter(r, &rec) {
                Some((attenuation, scattered)) => {
                    let bounced = ray_color(&scattered, world, depth - 1);
                    proof {
                        if depth == 1 {
                            assert(bounced == (Vec3 { x: 0, y: 0, z: 0 }));
                            assert(attenuation.x * bounced.x == 0) by (nonlinear_arith)
                                requires
                                    bounced.x == 0,
                            ;
                            assert(attenuation.y * bounced.y == 0) by (nonlinear_arith)
                                requires
                                    bounced.y == 0,
                            ;
                            assert(attenuation.z * bounced.z == 0) by (nonlinear_arith)
                                requires
                                    bounced.z == 0,
                            ;
                            vstd::arithmetic::div_mod::lemma_div_of0(SCALE as int);
                        }
                    }
                    attenuation.mul(&bounced)
                },
                None => Vec3::new(0, 0, 0),
            }
        },
        None => background(r),
    }
}

} // verus!
