use crate::hittable::HitRecord;
use crate::ray::Ray;
use crate::rtweekend::{
    clamp_spec, isqrt, lemma_tdiv_bounds, lemma_tdiv_sign, rand_01, sqrt_floor, tdiv, tdiv64,
    COORD_MAX, IOR_MAX, NORMAL_MAX, SCALE,
};
use crate::vec3::{
    color_in_range, dot, dot3, lemma_abs_mul, lemma_dot3_bound, lemma_tdiv_le, random_in_unit_sphere,
    random_unit_vector, reflect, reflect_spec, refract, refract_spec, vbounded, Color, Vec3,
};
use vstd::prelude::*;

verus! {

/// A diffuse surface: always scatters, in a random direction biased around
/// the normal; attenuates by its albedo.
#[derive(Clone, Copy, PartialEq, Eq, Structural, Debug)]
pub struct Lambertian {
    pub albedo: Color,
}

/// A reflective surface: mirrors the incoming ray, perturbed by `fuzz`
/// times a random point in the unit sphere; absorbs rays that end up
/// scattered into the surface.
#[derive(Clone, Copy, PartialEq, Eq, Structural, Debug)]
pub struct Metal {
    pub albedo: Color,
    pub fuzz: i64,
}

/// An ideal transparent medium: always scatters, reflecting or refracting
/// by total-internal-reflection and a Schlick-reflectance chance; attenuates
/// nothing (white).
#[derive(Clone, Copy, PartialEq, Eq, Structural, Debug)]
pub struct Dielectric {
    pub ir: i64,
}

/// The scattering policies a surface can carry, as a closed sum.
#[derive(Clone, Copy, PartialEq, Eq, Structural, Debug)]
pub enum Material {
    Lambertian(Lambertian),
    Metal(Metal),
    Dielectric(Dielectric),
}

/// Pure white: the attenuation of an ideal transparent medium.
pub open spec fn white_spec() -> Color {
    Vec3 { x: SCALE, y: SCALE, z: SCALE }
}

/// The refraction ratio a dielectric uses: the reciprocal of its index when
/// the ray enters from outside, the index itself when it exits.
pub open spec fn refraction_ratio_spec(ir: i64, front_face: bool) -> i64 {
    if front_face {
        tdiv((SCALE * SCALE) as int, ir as int) as i64
    } else {
        ir
    }
}

/// The cosine of the incidence angle of a unit direction against a normal,
/// clamped to at most one.
pub open spec fn incidence_cos_spec(uv: Vec3, n: Vec3) -> int {
    let ct = tdiv(-dot3(uv, n), SCALE as int);
    if ct > SCALE {
        SCALE as int
    } else {
        ct
    }
}

/// The sine of the incidence angle, from `sqrt(1 - cos^2)`; zero when a
/// degenerate (over-unit) cosine would make the root imaginary.
pub open spec fn incidence_sin_spec(uv: Vec3, n: Vec3) -> int {
    let shortfall = SCALE * SCALE - incidence_cos_spec(uv, n) * incidence_cos_spec(uv, n);
    if shortfall >= 0 {
        sqrt_floor(shortfall)
    } else {
        0
    }
}

/// Total internal reflection: no refracted ray exists because the
/// refraction ratio times the incidence sine exceeds one. This depends on
/// the inputs alone, never on a random draw.
pub open spec fn total_internal_reflection(uv: Vec3, n: Vec3, ratio: i64) -> bool {
    ratio * incidence_sin_spec(uv, n) > SCALE * SCALE
}

/// The outgoing direction of a dielectric scatter, as a function of the
/// unit incoming direction, the normal, the refraction ratio and the
/// uniform draw. A ratio of exactly one is an inert medium and passes the
/// ray to refraction unconditionally (where it degenerates to straight
/// through); otherwise the ray reflects on total internal reflection or
/// when the Schlick reflectance exceeds the draw, and refracts otherwise.
pub open spec fn dielectric_direction_spec(uv: Vec3, n: Vec3, ratio: i64, draw: int) -> Vec3 {
    if ratio == SCALE {
        refract_spec(uv, n, ratio)
    } else if total_internal_reflection(uv, n, ratio) || reflectance_spec(
        incidence_cos_spec(uv, n),
        ratio as int,
    ) > draw {
        reflect_spec(uv, n)
    } else {
        refract_spec(uv, n, ratio)
    }
}

/// Chooses the outgoing direction of a dielectric scatter from the drawn
/// reflectance threshold: a fully deterministic function of its arguments.
pub fn dielectric_direction(uv: Vec3, n: Vec3, ratio: i64, draw: i64) -> (r: Vec3)
    requires
        vbounded(uv, SCALE as int),
        vbounded(n, NORMAL_MAX as int),
        0 <= ratio <= IOR_MAX,
    ensures
        r == dielectric_direction_spec(uv, n, ratio, draw as int),
        ratio == SCALE ==> r == refract_spec(uv, n, ratio),
        total_internal_reflection(uv, n, ratio) ==> r == reflect_spec(uv, n),
        vbounded(r, COORD_MAX as int),
{
    proof {
        lemma_dot3_bound(uv, n, SCALE as int, NORMAL_MAX as int);
    }
    let flipped = uv.neg();
    proof {
        crate::vec3::lemma_dot3_neg(uv, n, flipped);
    }
    let c_raw = dot(&flipped, &n);
    proof {
        lemma_tdiv_bounds(c_raw as int, SCALE as int);
        assert(0x6_0000int * (SCALE as int) == 0x6_0000_0000int) by (nonlinear_arith)
            requires
                SCALE == 65536,
        ;
        lemma_tdiv_le(c_raw as int, SCALE as int, 0x6_0000);
    }
    let ct = tdiv64(c_raw, SCALE);
    let cos_theta = if ct > SCALE {
        SCALE
    } else {
        ct
    };
    proof {
        lemma_abs_mul(cos_theta as int, cos_theta as int, 0x6_0000, 0x6_0000);
        assert(cos_theta * cos_theta >= 0) by (nonlinear_arith);
    }
    let cos_sq = cos_theta * cos_theta;
    let shortfall = SCALE * SCALE - cos_sq;
    let sin_theta: i64 = if shortfall >= 0 {
        let sq = isqrt(shortfall as u128);
        proof {
            if sq as int > SCALE as int {
                assert((sq as int) * (sq as int) > (SCALE as int) * (SCALE as int))
                    by (nonlinear_arith)
                    requires
                        sq as int > SCALE as int,
                        SCALE >= 1,
                ;
                assert(false);
            }
        }
        sq as i64
    } else {
        // The clamped cosine exceeded one (a degenerate, non-unit
        // normal); treat the sine as zero, so total internal reflection
        // is never reported for such a normal.
        0
    };
    proof {
        assert(sin_theta as int == incidence_sin_spec(uv, n));
        lemma_abs_mul(ratio as int, sin_theta as int, IOR_MAX as int, SCALE as int);
    }
    let cannot_refract = ratio * sin_theta > SCALE * SCALE;
    if ratio == SCALE {
        // An inert medium: the sine never exceeds one, so total internal
        // reflection is impossible here, and the ray refracts (straight
        // through, up to rounding).
        proof {
            assert(!cannot_refract);
        }
        refract(uv, n, ratio)
    } else if cannot_refract || reflectance(cos_theta, ratio) > draw {
        reflect(uv, n)
    } else {
        refract(uv, n, ratio)
    }
}

impl Lambertian {
    pub fn new(albedo: Color) -> (r: Lambertian)
        requires
            color_in_range(albedo),
        ensures
            r.albedo == albedo,
    {
        Lambertian { albedo }
    }

    /// Diffuse scatter: a new ray from the hit point toward the normal plus
    /// a random unit vector (the normal itself if that sum degenerates to
    /// zero), attenuated by the albedo exactly.
    pub fn scatter(&self, r_in: &Ray, rec: &HitRecord) -> (res: Option<(Color, Ray)>)
        requires
            color_in_range(self.albedo),
            rec.wf(),
            r_in.wf(),
        ensures
            res is Some,
            (res->0).0 == self.albedo,
            (res->0).1.origin == rec.p,
            (res->0).1.time == r_in.time,
            vbounded((res->0).1.direction, COORD_MAX as int),
            rec.normal != (Vec3 { x: 0, y: 0, z: 0 }) ==> (res->0).1.direction != (Vec3 {
                x: 0,
                y: 0,
                z: 0,
            }),
    {
        let mut scatter_direction = rec.normal.add(&random_unit_vector());
        if scatter_direction.near_zero() {
            scatter_direction = rec.normal;
        }
        Some((self.albedo, Ray::ray(rec.p, scatter_direction, r_in.time())))
    }
}

impl Metal {
    /// Builds a metal with the fuzz radius clamped into [0, 1].
    pub fn new(albedo: Color, f: i64) -> (r: Metal)
        requires
            color_in_range(albedo),
        ensures
            r.albedo == albedo,
            r.fuzz == clamp_spec(f as int, 0, SCALE as int),
    {
        Metal { albedo, fuzz: crate::rtweekend::clamp(f, 0, SCALE) }
    }

    /// Mirror scatter: reflect the unit incoming direction about the
    /// normal, perturb by `fuzz` times a random point in the unit sphere,
    /// and absorb the ray if the result points into the surface. With zero
    /// fuzz the scatter is exact and deterministic; with positive fuzz the
    /// perturbation's pull toward the surface is bounded, so a reflection
    /// pointing away strongly enough always scatters, whatever was drawn.
    pub fn scatter(&self, r_in: &Ray, rec: &HitRecord) -> (res: Option<(Color, Ray)>)
        requires
            color_in_range(self.albedo),
            0 <= self.fuzz <= SCALE,
            rec.wf(),
            r_in.wf(),
        ensures
            res is Some ==> (res->0).0 == self.albedo,
            res is Some ==> (res->0).1.origin == rec.p,
            res is Some ==> (res->0).1.time == r_in.time,
            res is Some ==> vbounded((res->0).1.direction, COORD_MAX as int),
            res is Some ==> dot3((res->0).1.direction, rec.normal) > 0,
            self.fuzz == 0 ==> (res is Some <==> dot3(
                reflect_spec(Vec3::unit_spec(r_in.direction), rec.normal),
                rec.normal,
            ) > 0),
            self.fuzz == 0 && res is Some ==> (res->0).1.direction == reflect_spec(
                Vec3::unit_spec(r_in.direction),
                rec.normal,
            ),
            dot3(reflect_spec(Vec3::unit_spec(r_in.direction), rec.normal), rec.normal) > 3 * (
            (self.fuzz as int) * (NORMAL_MAX as int)) ==> res is Some,
    {
        let unit_in = r_in.direction().unit_vector();
        let reflected = reflect(unit_in, rec.normal);
        let sphere_point = random_in_unit_sphere();
        let perturbation = sphere_point.mul_s(self.fuzz);
        proof {
            lemma_abs_mul(sphere_point.x as int, self.fuzz as int, SCALE as int, SCALE as int);
            lemma_abs_mul(sphere_point.y as int, self.fuzz as int, SCALE as int, SCALE as int);
            lemma_abs_mul(sphere_point.z as int, self.fuzz as int, SCALE as int, SCALE as int);
            lemma_tdiv_le(sphere_point.x * self.fuzz, SCALE as int, SCALE as int);
            lemma_tdiv_le(sphere_point.y * self.fuzz, SCALE as int, SCALE as int);
            lemma_tdiv_le(sphere_point.z * self.fuzz, SCALE as int, SCALE as int);
            if self.fuzz == 0 {
                assert(sphere_point.x * self.fuzz == 0) by (nonlinear_arith)
                    requires
                        self.fuzz == 0,
                ;
                assert(sphere_point.y * self.fuzz == 0) by (nonlinear_arith)
                    requires
                        self.fuzz == 0,
                ;
                assert(sphere_point.z * self.fuzz == 0) by (nonlinear_arith)
                    requires
                        self.fuzz == 0,
                ;
                vstd::arithmetic::div_mod::lemma_div_of0(SCALE as int);
                assert(perturbation == (Vec3 { x: 0, y: 0, z: 0 }));
            }
        }
        proof {
            // Each perturbation component is at most the fuzz radius, so
            // its pull against the normal is at most 3 * fuzz * NORMAL_MAX.
            lemma_abs_mul(sphere_point.x as int, self.fuzz as int, SCALE as int, self.fuzz as int);
            lemma_abs_mul(sphere_point.y as int, self.fuzz as int, SCALE as int, self.fuzz as int);
            lemma_abs_mul(sphere_point.z as int, self.fuzz as int, SCALE as int, self.fuzz as int);
            assert((SCALE as int) * (self.fuzz as int) == (self.fuzz as int) * (SCALE as int))
                by (nonlinear_arith);
            lemma_tdiv_le(sphere_point.x * self.fuzz, SCALE as int, self.fuzz as int);
            lemma_tdiv_le(sphere_point.y * self.fuzz, SCALE as int, self.fuzz as int);
            lemma_tdiv_le(sphere_point.z * self.fuzz, SCALE as int, self.fuzz as int);
            lemma_dot3_bound(perturbation, rec.normal, self.fuzz as int, NORMAL_MAX as int);
        }
        let fuzzed = reflected.add(&perturbation);
        proof {
            assert((reflected.x + perturbation.x) * rec.normal.x == reflected.x * rec.normal.x
                + perturbation.x * rec.normal.x) by (nonlinear_arith);
            assert((reflected.y + perturbation.y) * rec.normal.y == reflected.y * rec.normal.y
                + perturbation.y * rec.normal.y) by (nonlinear_arith);
            assert((reflected.z + perturbation.z) * rec.normal.z == reflected.z * rec.normal.z
                + perturbation.z * rec.normal.z) by (nonlinear_arith);
            assert(dot3(fuzzed, rec.normal) == dot3(reflected, rec.normal) + dot3(
                perturbation,
                rec.normal,
            ));
        }
        let scattered = Ray::ray(rec.p, fuzzed, r_in.time());
        let d = dot(&fuzzed, &rec.normal);
        if d > 0 {
            Some((self.albedo, scattered))
        } else {
            None
        }
    }
}

impl Dielectric {
    pub fn new(index_of_refraction: i64) -> (r: Dielectric)
        requires
            SCALE <= index_of_refraction <= IOR_MAX,
        ensures
            r.ir == index_of_refraction,
    {
        Dielectric { ir: index_of_refraction }
    }

    /// Transparent scatter: always continues and attenuates nothing
    /// (exactly white). The outgoing direction is the deterministic
    /// `dielectric_direction_spec` of the unit incoming direction, the
    /// normal, the refraction ratio and the uniform draw: a ratio of
    /// exactly one always refracts (an inert medium never reflects by
    /// chance), total internal reflection always reflects, and otherwise
    /// the Schlick reflectance is weighed against the draw.
    pub fn scatter(&self, r_in: &Ray, rec: &HitRecord) -> (res: Option<(Color, Ray)>)
        requires
            SCALE <= self.ir <= IOR_MAX,
            rec.wf(),
            r_in.wf(),
        ensures
            res is Some,
            (res->0).0 == white_spec(),
            (res->0).1.origin == rec.p,
            (res->0).1.time == r_in.time,
            vbounded((res->0).1.direction, COORD_MAX as int),
            refraction_ratio_spec(self.ir, rec.front_face) == SCALE ==> (res->0).1.direction
                == refract_spec(Vec3::unit_spec(r_in.direction), rec.normal, SCALE),
            total_internal_reflection(
                Vec3::unit_spec(r_in.direction),
                rec.normal,
                refraction_ratio_spec(self.ir, rec.front_face),
            ) ==> (res->0).1.direction == reflect_spec(Vec3::unit_spec(r_in.direction), rec.normal),
            exists|q: int|
                0 <= q < SCALE && (res->0).1.direction == #[trigger] dielectric_direction_spec(
                    Vec3::unit_spec(r_in.direction),
                    rec.normal,
                    refraction_ratio_spec(self.ir, rec.front_face),
                    q,
                ),
            (res->0).1.direction == reflect_spec(Vec3::unit_spec(r_in.direction), rec.normal)
                || (res->0).1.direction == refract_spec(
                Vec3::unit_spec(r_in.direction),
                rec.normal,
                refraction_ratio_spec(self.ir, rec.front_face),
            ),
    {
        let refraction_ratio: i64 = if rec.front_face {
            proof {
                assert((SCALE * SCALE) as int <= (SCALE as int) * (self.ir as int))
                    by (nonlinear_arith)
                    requires
                        SCALE <= self.ir,
                        SCALE >= 1,
                ;
                lemma_tdiv_le((SCALE * SCALE) as int, self.ir as int, SCALE as int);
                lemma_tdiv_sign((SCALE * SCALE) as int, self.ir as int);
            }
            tdiv64(SCALE * SCALE, self.ir)
        } else {
            self.ir
        };
        proof {
            assert(refraction_ratio == refraction_ratio_spec(self.ir, rec.front_face));
        }
        let unit_direction = r_in.direction().unit_vector();
        let draw = rand_01();
        let direction = dielectric_direction(unit_direction, rec.normal, refraction_ratio, draw);
        proof {
            assert(direction == dielectric_direction_spec(
                Vec3::unit_spec(r_in.direction),
                rec.normal,
                refraction_ratio_spec(self.ir, rec.front_face),
                draw as int,
            ));
        }
        Some((Vec3::new(SCALE, SCALE, SCALE), Ray::ray(rec.p, direction, r_in.time())))
    }
}

impl Material {
    /// A well-formed material: colour channels inside [0, 1], fuzz inside
    /// [0, 1], refractive index inside [1, 4].
    pub open spec fn wf(self) -> bool {
        match self {
            Material::Lambertian(l) => color_in_range(l.albedo),
            Material::Metal(m) => color_in_range(m.albedo) && 0 <= m.fuzz <= SCALE,
            Material::Dielectric(d) => SCALE <= d.ir <= IOR_MAX,
        }
    }

    /// Scatters the incoming ray at the hit: `None` means absorption;
    /// otherwise the attenuation colour and the outgoing ray, which starts
    /// at the hit point and keeps the incoming ray's time. The clauses per
    /// variant: a diffuse surface always scatters and attenuates by its
    /// albedo exactly; a metal only ever scatters away from the surface,
    /// with zero fuzz mirrors the unit incoming direction exactly, and
    /// always scatters when the mirror direction clears the surface by more
    /// than the perturbation can pull back; a dielectric always scatters
    /// white, refracting unconditionally at refraction ratio one and
    /// reflecting unconditionally on total internal reflection.
    pub fn scatter(&self, r_in: &Ray, rec: &HitRecord) -> (res: Option<(Color, Ray)>)
        requires
            self.wf(),
            rec.wf(),
            r_in.wf(),
        ensures
            res is Some ==> (res->0).1.origin == rec.p,
            res is Some ==> (res->0).1.time == r_in.time,
            res is Some ==> vbounded((res->0).1.direction, COORD_MAX as int),
            res is Some ==> color_in_range((res->0).0),
            self matches Material::Lambertian(l) ==> res is Some && (res->0).0 == l.albedo,
            self matches Material::Metal(m) ==> (res is Some ==> (res->0).0 == m.albedo && dot3(
                (res->0).1.direction,
                rec.normal,
            ) > 0) && (m.fuzz == 0 ==> ((res is Some <==> dot3(
                reflect_spec(Vec3::unit_spec(r_in.direction), rec.normal),
                rec.normal,
            ) > 0) && (res is Some ==> (res->0).1.direction == reflect_spec(
                Vec3::unit_spec(r_in.direction),
                rec.normal,
            )))) && (dot3(reflect_spec(Vec3::unit_spec(r_in.direction), rec.normal), rec.normal)
                > 3 * ((m.fuzz as int) * (NORMAL_MAX as int)) ==> res is Some),
            self matches Material::Dielectric(d) ==> res is Some && (res->0).0 == white_spec()
                && ((res->0).1.direction == reflect_spec(Vec3::unit_spec(r_in.direction), rec.normal)
                || (res->0).1.direction == refract_spec(
                Vec3::unit_spec(r_in.direction),
                rec.normal,
                refraction_ratio_spec(d.ir, rec.front_face),
            )) && (refraction_ratio_spec(d.ir, rec.front_face) == SCALE ==> (res->0).1.direction
                == refract_spec(Vec3::unit_spec(r_in.direction), rec.normal, SCALE)) && (
            total_internal_reflection(
                Vec3::unit_spec(r_in.direction),
                rec.normal,
                refraction_ratio_spec(d.ir, rec.front_face),
            ) ==> (res->0).1.direction == reflect_spec(Vec3::unit_spec(r_in.direction), rec.normal)),
    {
        match self {
            Material::Lambertian(l) => l.scatter(r_in, rec),
            Material::Metal(m) => m.scatter(r_in, rec),
            Material::Dielectric(d) => d.scatter(r_in, rec),
        }
    }
}

/// Schlick's approximation of the Fresnel reflectance, at the fixed-point
/// scale: `r0 + (1 - r0) * (1 - cosine)^5` with
/// `r0 = ((1 - ref_idx) / (1 + ref_idx))^2`.
pub open spec fn reflectance_spec(cosine: int, ref_idx: int) -> int {
    let r0a = tdiv((SCALE - ref_idx) * SCALE, SCALE + ref_idx);
    let r0 = tdiv(r0a * r0a, SCALE as int);
    let d = SCALE - cosine;
    let p2 = tdiv(d * d, SCALE as int);
    let p4 = tdiv(p2 * p2, SCALE as int);
    let p5 = tdiv(p4 * d, SCALE as int);
    r0 + tdiv((SCALE - r0) * p5, SCALE as int)
}

/// Schlick's reflectance approximation.
pub fn reflectance(cosine: i64, ref_idx: i64) -> (r: i64)
    requires
        -0x10_0000 <= cosine <= SCALE,
        0 <= ref_idx <= IOR_MAX,
    ensures
        r == reflectance_spec(cosine as int, ref_idx as int),
{
    proof {
        lemma_abs_mul((SCALE - ref_idx) as int, SCALE as int, (SCALE + ref_idx) as int, SCALE as int);
        lemma_tdiv_le((SCALE - ref_idx) * SCALE, (SCALE + ref_idx) as int, SCALE as int);
    }
    let r0a = tdiv64((SCALE - ref_idx) * SCALE, SCALE + ref_idx);
    proof {
        lemma_abs_mul(r0a as int, r0a as int, SCALE as int, SCALE as int);
        lemma_tdiv_le(r0a * r0a, SCALE as int, SCALE as int);
        assert(r0a * r0a >= 0) by (nonlinear_arith);
        lemma_tdiv_sign(r0a * r0a, SCALE as int);
    }
    let r0 = tdiv64(r0a * r0a, SCALE);
    let d = SCALE - cosine;
    proof {
        lemma_abs_mul(d as int, d as int, 0x11_0000, 0x11_0000);
        assert(0x121_0000int * (SCALE as int) == 0x121_0000_0000int) by (nonlinear_arith)
            requires
                SCALE == 65536,
        ;
        assert(0x11_0000int * 0x11_0000int == 0x121_0000_0000int) by (nonlinear_arith);
        lemma_tdiv_le(d * d, SCALE as int, 0x121_0000);
    }
    let p2 = tdiv64(d * d, SCALE);
    proof {
        lemma_abs_mul(p2 as int, p2 as int, 0x121_0000, 0x121_0000);
        assert(0x121_0000int * 0x121_0000int == 0x1_4641_0000_0000int) by (nonlinear_arith);
        assert(0x1_4641_0000int * (SCALE as int) == 0x1_4641_0000_0000int) by (nonlinear_arith)
            requires
                SCALE == 65536,
        ;
        lemma_tdiv_le(p2 * p2, SCALE as int, 0x1_4641_0000);
    }
    let p4 = tdiv64(p2 * p2, SCALE);
    proof {
        lemma_abs_mul(p4 as int, d as int, 0x1_4641_0000, 0x11_0000);
        assert(0x1_4641_0000int * 0x11_0000int == 0x15_AA51_0000_0000int) by (nonlinear_arith);
        assert(0x15_AA51_0000int * (SCALE as int) == 0x15_AA51_0000_0000int) by (nonlinear_arith)
            requires
                SCALE == 65536,
        ;
        lemma_tdiv_le(p4 * d, SCALE as int, 0x15_AA51_0000);
    }
    let p5 = tdiv64(p4 * d, SCALE);
    proof {
        lemma_abs_mul((SCALE - r0) as int, p5 as int, 0x2_0000, 0x15_AA51_0000);
        lemma_tdiv_bounds((SCALE - r0) * p5, SCALE as int);
    }
    r0 + tdiv64((SCALE - r0) * p5, SCALE)
}

} // verus!
