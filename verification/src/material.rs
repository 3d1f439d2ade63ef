//! Materials: how a ray reflects, refracts, scatters or is absorbed
//! at a hit point.

use vstd::prelude::*;

use crate::fixed::{abs_int, div_fx, fx_clamp, fx_div, fx_min, fx_mul, mul_fx, FX_ONE};
use crate::hittable::{hitrec_ok, HitRecord};
use crate::ray::{wf_ray, Ray};
use crate::rng::RandomSource;
use crate::texture::{sample_flat, wf_texture, SolidColor, Texture};
use crate::vector::{
    dot_spec, is_vec_near_zero, random_unit_sphere_vec, vec_bounded, Color, Vec2, Vec3,
};

verus! {

/// A material that absorbs everything, used as a placeholder.
pub struct DebugMaterial;

/// Diffuse reflection with a texture-driven albedo.
pub struct Lambertian {
    pub texture: Box<Texture>,
}

/// Specular reflection with a fuzz radius.
pub struct Metal {
    pub albedo: Color,
    pub fuzz: i64,
}

/// Refractive glass: one refraction-index parameter; reflects or
/// refracts by the Schlick probability, never absorbs.
pub struct Dielectric {
    pub refraction_index: i64,
}

/// Pure emitter: never scatters.
pub struct DiffuseLight {
    pub texture: Box<Texture>,
}

/// Uniform random scattering for participating media.
pub struct Isotropic {
    pub texture: Box<Texture>,
}

/// The closed set of material variants.
pub enum Material {
    Debug(DebugMaterial),
    Lambertian(Lambertian),
    Metal(Metal),
    Dielectric(Dielectric),
    DiffuseLight(DiffuseLight),
    Isotropic(Isotropic),
}

/// Structural bounds every material keeps.
pub open spec fn wf_material(m: Material) -> bool {
    match m {
        Material::Debug(_) => true,
        Material::Lambertian(l) => wf_texture(*l.texture),
        Material::Metal(mt) => vec_bounded(mt.albedo) && abs_int(mt.fuzz as int) <= FX_ONE,
        Material::Dielectric(d) => FX_ONE / 4 <= d.refraction_index <= 4 * FX_ONE,
        Material::DiffuseLight(d) => wf_texture(*d.texture),
        Material::Isotropic(i) => wf_texture(*i.texture),
    }
}

/// The Lambertian scatter law: the direction is the surface normal
/// plus a unit-scale random offset, with the bare normal substituted
/// when the sum cancels to zero.
pub open spec fn lambertian_dir(normal: Vec3, off: Vec3, dir: Vec3) -> bool {
    &&& abs_int(off.x as int) <= FX_ONE
    &&& abs_int(off.y as int) <= FX_ONE
    &&& abs_int(off.z as int) <= FX_ONE
    &&& dir == (if normal.x + off.x == 0 && normal.y + off.y == 0 && normal.z + off.z == 0 {
        normal
    } else {
        Vec3 {
            x: (normal.x + off.x) as i64,
            y: (normal.y + off.y) as i64,
            z: (normal.z + off.z) as i64,
        }
    })
}

/// The Schlick reflectance: `r0 + (1 - r0) * (1 - cos)^5` with
/// `r0 = ((1 - n) / (1 + n))^2`, over fixed-point operations.
pub open spec fn reflectance_spec(n: int, cosine: int) -> int {
    let q = fx_div(FX_ONE - n, FX_ONE + n);
    let r0 = fx_mul(q, q);
    let om = FX_ONE - cosine;
    let m2 = fx_mul(om, om);
    let m4 = fx_mul(m2, m2);
    let p5 = fx_mul(m4, om);
    r0 + fx_mul(FX_ONE - r0, p5)
}

impl Lambertian {
    pub fn from_texture(texture: Box<Texture>) -> (r: Lambertian)
        ensures
            r.texture == texture,
    {
        Lambertian { texture }
    }

    pub fn from_color(color: Color) -> (r: Lambertian)
        ensures
            r.texture == Texture::Solid(SolidColor { color }),
    {
        Lambertian::from_texture(Box::new(Texture::Solid(SolidColor { color })))
    }

    pub fn from_color_components(red: i64, green: i64, blue: i64) -> (r: Lambertian)
        ensures
            r.texture == Texture::Solid(SolidColor { color: Vec3 { x: red, y: green, z: blue } }),
    {
        Lambertian::from_color(Vec3 { x: red, y: green, z: blue })
    }
}

impl Metal {
    /// The fuzz radius saturates at one in magnitude.  The upper
    /// clamp follows the saturation rule; the lower one is a machine
    /// limit, and costs nothing: a negated fuzz only mirrors the
    /// symmetric random perturbation.
    pub fn new(albedo: Color, fuzz: i64) -> (r: Metal)
        ensures
            r.albedo == albedo,
            r.fuzz == crate::fixed::clamp_spec(fuzz as int, -FX_ONE as int, FX_ONE as int),
    {
        Metal { albedo, fuzz: fx_clamp(fuzz, -FX_ONE, FX_ONE) }
    }
}

impl Dielectric {
    pub fn new(refraction_index: i64) -> (r: Dielectric)
        ensures
            r.refraction_index == refraction_index,
    {
        Dielectric { refraction_index }
    }

    /// Schlick's reflectance approximation at the given incidence
    /// cosine.
    pub fn reflectance(&self, cosine: i64) -> (r: i64)
        requires
            FX_ONE / 4 <= self.refraction_index <= 4 * FX_ONE,
            -8 * FX_ONE <= cosine <= FX_ONE,
        ensures
            r == reflectance_spec(self.refraction_index as int, cosine as int),
    {
        proof {
            lemma_reflectance_bounds(self.refraction_index as int, cosine as int);
        }
        let q = div_fx(FX_ONE - self.refraction_index, FX_ONE + self.refraction_index);
        proof {
            lemma_small_product(q as int, q as int, 3, 3);
        }
        let r0 = mul_fx(q, q);
        let om = FX_ONE - cosine;
        proof {
            lemma_small_product(om as int, om as int, 9, 9);
        }
        let m2 = mul_fx(om, om);
        proof {
            lemma_small_product(m2 as int, m2 as int, 81, 81);
        }
        let m4 = mul_fx(m2, m2);
        proof {
            lemma_small_product(m4 as int, om as int, 6561, 9);
        }
        let p5 = mul_fx(m4, om);
        proof {
            lemma_small_product((FX_ONE - r0) as int, p5 as int, 10, 59049);
        }
        r0 + mul_fx(FX_ONE - r0, p5)
    }
}

/// Bound a fixed-point product of two values each below a small
/// multiple of one: the product stays below the product of the
/// multiples.
pub(crate) proof fn lemma_small_product(a: int, b: int, ka: int, kb: int)
    requires
        abs_int(a) <= ka * FX_ONE,
        abs_int(b) <= kb * FX_ONE,
        0 <= ka <= 0x8_0000,
        0 <= kb <= 0x8_0000,
    ensures
        abs_int(a * b) <= 0x7fff_ffff_ffff_ffff * (FX_ONE as int),
        abs_int(fx_mul(a, b)) <= ka * kb * FX_ONE,
{
    assert(abs_int(a * b) <= (ka * kb * FX_ONE) * FX_ONE && (ka * kb * FX_ONE) * FX_ONE
        <= 0x7fff_ffff_ffff_ffff * (FX_ONE as int)) by (nonlinear_arith)
        requires
            abs_int(a) <= ka * FX_ONE,
            abs_int(b) <= kb * FX_ONE,
            0 <= ka <= 0x8_0000,
            0 <= kb <= 0x8_0000,
            FX_ONE == 0x100_0000,
    ;
    crate::fixed::lemma_tdiv_bound(a * b, FX_ONE as int);
    vstd::arithmetic::div_mod::lemma_div_is_ordered(
        abs_int(a * b),
        (ka * kb * FX_ONE) * FX_ONE,
        FX_ONE as int,
    );
    vstd::arithmetic::div_mod::lemma_div_multiples_vanish(ka * kb * FX_ONE, FX_ONE as int);
    assert((ka * kb * FX_ONE) * FX_ONE == FX_ONE as int * (ka * kb * FX_ONE)) by (nonlinear_arith);
}

proof fn lemma_reflectance_bounds(n: int, cosine: int)
    requires
        FX_ONE / 4 <= n <= 4 * FX_ONE,
        -8 * FX_ONE <= cosine <= FX_ONE,
    ensures
        abs_int(fx_div(FX_ONE - n, FX_ONE + n)) <= 3 * FX_ONE,
{
    let num = FX_ONE - n;
    let den = FX_ONE + n;
    assert(den >= FX_ONE);
    crate::fixed::lemma_tdiv_bound(num * FX_ONE, den);
    assert(abs_int(num * FX_ONE) <= den * (3 * FX_ONE)) by (nonlinear_arith)
        requires
            abs_int(num) <= 3 * FX_ONE,
            den >= FX_ONE,
            FX_ONE == 0x100_0000,
    ;
    vstd::arithmetic::div_mod::lemma_div_is_ordered(abs_int(num * FX_ONE), den * (3 * FX_ONE), den);
    vstd::arithmetic::div_mod::lemma_div_multiples_vanish(3 * FX_ONE, den);
}

impl DiffuseLight {
    pub fn from_texture(texture: Box<Texture>) -> (r: DiffuseLight)
        ensures
            r.texture == texture,
    {
        DiffuseLight { texture }
    }

    pub fn from_color(color: Color) -> (r: DiffuseLight)
        ensures
            r.texture == Texture::Solid(SolidColor { color }),
    {
        DiffuseLight::from_texture(Box::new(Texture::Solid(SolidColor { color })))
    }

    pub fn from_color_components(red: i64, green: i64, blue: i64) -> (r: DiffuseLight)
        ensures
            r.texture == Texture::Solid(SolidColor { color: Vec3 { x: red, y: green, z: blue } }),
    {
        DiffuseLight::from_color(Vec3 { x: red, y: green, z: blue })
    }
}

impl Isotropic {
    pub fn from_texture(texture: Box<Texture>) -> (r: Isotropic)
        ensures
            r.texture == texture,
    {
        Isotropic { texture }
    }

    pub fn from_color(color: Color) -> (r: Isotropic)
        ensures
            r.texture == Texture::Solid(SolidColor { color }),
    {
        Isotropic::from_texture(Box::new(Texture::Solid(SolidColor { color })))
    }
}

impl Material {
    /// A deep copy: well-formedness carries over, and for variants
    /// without raster data the copy is the same value.
    pub fn dup(&self) -> (r: Material)
        ensures
            wf_material(*self) ==> wf_material(r),
    {
        match self {
            Material::Debug(_) => Material::Debug(DebugMaterial),
            Material::Lambertian(l) => Material::Lambertian(
                Lambertian { texture: Box::new(l.texture.dup()) },
            ),
            Material::Metal(m) => Material::Metal(Metal { albedo: m.albedo, fuzz: m.fuzz }),
            Material::Dielectric(d) => Material::Dielectric(
                Dielectric { refraction_index: d.refraction_index },
            ),
            Material::DiffuseLight(d) => Material::DiffuseLight(
                DiffuseLight { texture: Box::new(d.texture.dup()) },
            ),
            Material::Isotropic(i) => Material::Isotropic(
                Isotropic { texture: Box::new(i.texture.dup()) },
            ),
        }
    }
}

/// Mirror reflection of `v` about the unit-scale normal `n`.
fn reflect(v: Vec3, n: Vec3) -> (r: Vec3)
    requires
        abs_int(v.x as int) <= 2 * FX_ONE,
        abs_int(v.y as int) <= 2 * FX_ONE,
        abs_int(v.z as int) <= 2 * FX_ONE,
        abs_int(n.x as int) <= 2 * FX_ONE,
        abs_int(n.y as int) <= 2 * FX_ONE,
        abs_int(n.z as int) <= 2 * FX_ONE,
    ensures
        abs_int(r.x as int) <= 128 * FX_ONE,
        abs_int(r.y as int) <= 128 * FX_ONE,
        abs_int(r.z as int) <= 128 * FX_ONE,
{
    let d = v.dot(n);
    proof {
        lemma_small_product(v.x as int, n.x as int, 2, 2);
        lemma_small_product(v.y as int, n.y as int, 2, 2);
        lemma_small_product(v.z as int, n.z as int, 2, 2);
    }
    let s = n.scale(2 * d);
    proof {
        lemma_small_product(n.x as int, 2 * d as int, 2, 24);
        lemma_small_product(n.y as int, 2 * d as int, 2, 24);
        lemma_small_product(n.z as int, 2 * d as int, 2, 24);
    }
    v.sub(s)
}

/// Snell refraction of the unit-scale direction `uv` about `n` with
/// relative index `etai`; the radicand is clamped at the grid so the
/// result is always defined.
fn refract(uv: Vec3, n: Vec3, etai: i64) -> (r: Vec3)
    requires
        abs_int(uv.x as int) <= 2 * FX_ONE,
        abs_int(uv.y as int) <= 2 * FX_ONE,
        abs_int(uv.z as int) <= 2 * FX_ONE,
        abs_int(n.x as int) <= 2 * FX_ONE,
        abs_int(n.y as int) <= 2 * FX_ONE,
        abs_int(n.z as int) <= 2 * FX_ONE,
        0 < etai <= 4 * FX_ONE,
    ensures
        vec_bounded(r),
{
    proof {
        lemma_small_product(uv.x as int, n.x as int, 2, 2);
        lemma_small_product(uv.y as int, n.y as int, 2, 2);
        lemma_small_product(uv.z as int, n.z as int, 2, 2);
    }
    let cos_theta = fx_clamp(-uv.dot(n), -FX_ONE, FX_ONE);
    proof {
        lemma_small_product(n.x as int, cos_theta as int, 2, 1);
        lemma_small_product(n.y as int, cos_theta as int, 2, 1);
        lemma_small_product(n.z as int, cos_theta as int, 2, 1);
    }
    let scaled_n = n.scale(cos_theta);
    let sum = uv.add(scaled_n);
    proof {
        lemma_small_product(sum.x as int, etai as int, 26, 4);
        lemma_small_product(sum.y as int, etai as int, 26, 4);
        lemma_small_product(sum.z as int, etai as int, 26, 4);
    }
    let r_perp = sum.scale(etai);
    proof {
        lemma_small_product(r_perp.x as int, r_perp.x as int, 104, 104);
        lemma_small_product(r_perp.y as int, r_perp.y as int, 104, 104);
        lemma_small_product(r_perp.z as int, r_perp.z as int, 104, 104);
    }
    let lensq = r_perp.length_squared();
    let k = fx_clamp(FX_ONE - fx_min(lensq, FX_ONE), 0, FX_ONE);
    let root = crate::vector::sqrt_vec(&Vec3 { x: k, y: 0, z: 0 });
    let par_len = root.x;
    proof {
        assert(par_len as int * par_len as int <= (k as int) * (FX_ONE as int));
        assert(par_len <= FX_ONE) by (nonlinear_arith)
            requires
                par_len as int * par_len as int <= (k as int) * (FX_ONE as int),
                0 <= k <= FX_ONE,
                par_len >= 0,
                FX_ONE == 0x100_0000,
        ;
        lemma_small_product(n.x as int, par_len as int, 2, 1);
        lemma_small_product(n.y as int, par_len as int, 2, 1);
        lemma_small_product(n.z as int, par_len as int, 2, 1);
    }
    let r_par = n.scale(par_len);
    r_perp.sub(r_par)
}

impl Material {
    /// How the ray continues at a hit: either absorbed (false), or a
    /// new scattered ray from the hit point with an attenuation color.
    pub fn scatter<'a>(
        &self,
        record: &mut HitRecord<'a>,
        attenuation: &mut Color,
        scattered: &mut Ray,
        rng: &mut RandomSource,
    ) -> (res: bool)
        requires
            wf_material(*self),
            hitrec_ok(*old(record)),
        ensures
            *final(record) == *old(record),
            res ==> wf_ray(*final(scattered)),
            res ==> vec_bounded(*final(attenuation)),
            res ==> final(scattered).origin == old(record).point && final(scattered).time == old(
                record,
            ).in_ray.time,
            self matches Material::Debug(_) ==> !res && *final(attenuation) == *old(attenuation)
                && *final(scattered) == *old(scattered),
            self matches Material::DiffuseLight(_) ==> !res && *final(attenuation) == *old(
                attenuation,
            ) && *final(scattered) == *old(scattered),
            self matches Material::Lambertian(l) ==> res && (sample_flat(
                *l.texture,
                old(record).point,
            ) matches Some(c) ==> *final(attenuation) == c),
            self matches Material::Lambertian(_) ==> exists|off: Vec3|
                #[trigger] lambertian_dir(old(record).normal, off, final(scattered).direction),
            self matches Material::Metal(m) ==> res == (dot_spec(
                final(scattered).direction,
                old(record).normal,
            ) > 0) && *final(attenuation) == m.albedo,
            self matches Material::Dielectric(_) ==> res && *final(attenuation) == (Vec3 {
                x: FX_ONE,
                y: FX_ONE,
                z: FX_ONE,
            }),
            self matches Material::Isotropic(i) ==> res && (sample_flat(
                *i.texture,
                old(record).point,
            ) matches Some(c) ==> *final(attenuation) == c),
            self matches Material::Isotropic(_) ==> abs_int(final(scattered).direction.x as int)
                <= FX_ONE && abs_int(final(scattered).direction.y as int) <= FX_ONE && abs_int(
                final(scattered).direction.z as int,
            ) <= FX_ONE,
    {
        match self {
            Material::Debug(_) => false,
            Material::DiffuseLight(_) => false,
            Material::Lambertian(l) => {
                let unit = random_unit_sphere_vec(rng);
                let mut scatter_direction = record.normal.add(unit);
                if is_vec_near_zero(&scatter_direction) {
                    scatter_direction = record.normal;
                }
                proof {
                    assert(lambertian_dir(record.normal, unit, scatter_direction));
                }
                *scattered = Ray::new(record.point, scatter_direction, record.in_ray.time);
                *attenuation = l.texture.sample(&record.uv, &record.point);
                true
            },
            Material::Metal(m) => {
                let unit_in = if is_vec_near_zero(&record.in_ray.direction) {
                    record.normal
                } else {
                    record.in_ray.direction.normalized()
                };
                let mirrored = reflect(unit_in, record.normal);
                let unit_mirrored = if is_vec_near_zero(&mirrored) {
                    record.normal
                } else {
                    mirrored.normalized()
                };
                let fuzz_vec = random_unit_sphere_vec(rng).scale(m.fuzz);
                proof {
                    lemma_unit_scale_bounds(m.fuzz as int);
                }
                let reflected = unit_mirrored.add(fuzz_vec);
                *scattered = Ray::new(record.point, reflected, record.in_ray.time);
                *attenuation = m.albedo;
                let d = reflected.dot(record.normal);
                d > 0
            },
            Material::Dielectric(dl) => {
                let ri = if record.front_face {
                    proof {
                        lemma_recip_index(dl.refraction_index as int);
                    }
                    div_fx(FX_ONE, dl.refraction_index)
                } else {
                    dl.refraction_index
                };
                let unit_direction = if is_vec_near_zero(&record.in_ray.direction) {
                    record.normal
                } else {
                    record.in_ray.direction.normalized()
                };
                proof {
                    lemma_small_product(
                        unit_direction.x as int,
                        record.normal.x as int,
                        2,
                        2,
                    );
                    lemma_small_product(
                        unit_direction.y as int,
                        record.normal.y as int,
                        2,
                        2,
                    );
                    lemma_small_product(
                        unit_direction.z as int,
                        record.normal.z as int,
                        2,
                        2,
                    );
                }
                let cos_theta = fx_clamp(-unit_direction.dot(record.normal), -FX_ONE, FX_ONE);
                proof {
                    lemma_small_product(cos_theta as int, cos_theta as int, 1, 1);
                }
                let cos_sq = mul_fx(cos_theta, cos_theta);
                let sin_sq = fx_clamp(FX_ONE - fx_min(cos_sq, FX_ONE), 0, FX_ONE);
                let sin_root = crate::vector::sqrt_vec(&Vec3 { x: sin_sq, y: 0, z: 0 });
                let sin_theta = sin_root.x;
                proof {
                    assert(sin_theta <= FX_ONE) by (nonlinear_arith)
                        requires
                            sin_theta as int * sin_theta as int <= (sin_sq as int) * (
                            FX_ONE as int),
                            0 <= sin_sq <= FX_ONE,
                            sin_theta >= 0,
                            FX_ONE == 0x100_0000,
                    ;
                    lemma_small_product(ri as int, sin_theta as int, 4, 1);
                }
                let trial = rng.next_in(0, FX_ONE);
                let should_reflect = mul_fx(ri, sin_theta) > FX_ONE || reflectance_gate(
                    dl,
                    record.front_face,
                    cos_theta,
                    trial,
                );
                let direction = if should_reflect {
                    let mirrored = reflect(unit_direction, record.normal);
                    mirrored
                } else {
                    refract(unit_direction, record.normal, if ri <= 0 {
                        1
                    } else {
                        ri
                    })
                };
                *scattered = Ray::new(record.point, direction, record.in_ray.time);
                *attenuation = Vec3 { x: FX_ONE, y: FX_ONE, z: FX_ONE };
                true
            },
            Material::Isotropic(i) => {
                let dir = random_unit_sphere_vec(rng);
                *scattered = Ray::new(record.point, dir, record.in_ray.time);
                *attenuation = i.texture.sample(&record.uv, &record.point);
                true
            },
        }
    }

    /// Light emitted at a hit: zero except for diffuse lights, whose
    /// emission is their texture sample.
    pub fn emitted(&self, uv: &Vec2, point: &Vec3) -> (r: Color)
        requires
            wf_material(*self),
            vec_bounded(*point),
        ensures
            vec_bounded(r),
            !(self matches Material::DiffuseLight(_)) ==> r == (Vec3 { x: 0i64, y: 0i64, z: 0i64 }),
            self matches Material::DiffuseLight(d) ==> (sample_flat(*d.texture, *point)
                matches Some(c) ==> r == c),
            self matches Material::DiffuseLight(d) ==> (*d.texture matches Texture::Image(img)
                ==> r == crate::texture::bilinear_spec(
                img.width as int,
                img.height as int,
                img.pixels@,
                *uv,
            )),
            self matches Material::DiffuseLight(d) ==> (*d.texture matches Texture::Noise(n)
                ==> r == crate::texture::noise_sample_spec(n, *point)),
    {
        match self {
            Material::DiffuseLight(d) => d.texture.sample(uv, point),
            _ => Vec3 { x: 0, y: 0, z: 0 },
        }
    }
}

/// The Schlick trial against a uniform random draw, with the
/// refraction index inverted on front faces.
fn reflectance_gate(dl: &Dielectric, front_face: bool, cos_theta: i64, trial: i64) -> (r:
    bool)
    requires
        FX_ONE / 4 <= dl.refraction_index <= 4 * FX_ONE,
        -8 * FX_ONE <= cos_theta <= FX_ONE,
    ensures
        r == (reflectance_spec(dl.refraction_index as int, cos_theta as int) > trial),
{
    let refl = Dielectric { refraction_index: dl.refraction_index }.reflectance(cos_theta);
    refl > trial
}

proof fn lemma_unit_scale_bounds(fuzz: int)
    requires
        abs_int(fuzz) <= FX_ONE,
    ensures
        forall|c: int|
            abs_int(c) <= FX_ONE ==> abs_int(#[trigger] (c * fuzz)) <= 0x7fff_ffff_ffff_ffff * (
            FX_ONE as int) && abs_int(fx_mul(c, fuzz)) <= FX_ONE,
{
    assert forall|c: int| abs_int(c) <= FX_ONE implies abs_int(#[trigger] (c * fuzz))
        <= 0x7fff_ffff_ffff_ffff * (FX_ONE as int) && abs_int(fx_mul(c, fuzz)) <= FX_ONE by {
        lemma_small_product(c, fuzz, 1, 1);
    }
}

proof fn lemma_recip_index(n: int)
    requires
        FX_ONE / 4 <= n <= 4 * FX_ONE,
    ensures
        0 <= fx_div(FX_ONE as int, n) <= 4 * FX_ONE,
        abs_int(fx_div(FX_ONE as int, n)) <= 0x7fff_ffff_ffff_ffff,
{
    crate::fixed::lemma_tdiv_bound(FX_ONE as int * FX_ONE, n);
    vstd::arithmetic::div_mod::lemma_div_pos_is_pos(FX_ONE as int * FX_ONE, n);
    vstd::arithmetic::div_mod::lemma_div_is_ordered_by_denominator(
        FX_ONE as int * FX_ONE,
        FX_ONE as int / 4,
        n,
    );
    assert((FX_ONE as int * FX_ONE) / (FX_ONE as int / 4) == 4 * FX_ONE) by (nonlinear_arith)
        requires
            FX_ONE == 0x100_0000,
    ;
}

} // verus!
