//! A probabilistic homogeneous participating medium (fog or smoke)
//! bounded by an arbitrary hittable shell.

use vstd::prelude::*;

use crate::aabb::AABB;
use crate::fixed::{
    abs_int, div_fx, fx_max, fx_min, mul_fx, neg_ln_fx, FX_ONE, MAX_WORLD, T_INF,
};
use crate::hittable::{elig, elig_check, hitrec_ok, HitRecord, Hittable};
use crate::material::{lemma_small_product, wf_material, Isotropic, Material};
use crate::ray::{wf_ray, Ray};
use crate::rng::RandomSource;
use crate::texture::{wf_texture, Texture};
use crate::vector::{Color, Vec3};

verus! {

/// Entry offset used to find the exit crossing just past the entry.
pub const MEDIUM_EPS: i64 = 168;

/// A medium: the boundary shell, the (positive) density, and the
/// isotropic phase function that scatters inside it.
pub struct ConstantMedium {
    pub boundary: Box<Hittable>,
    pub density: i64,
    pub phase_function: Material,
}

/// The clamped in-medium segment of a ray through a deterministic
/// boundary, if it is nonempty: the entry is the first boundary
/// crossing over the unrestricted range, clamped up by the query
/// start and by zero; the exit is the next crossing just past the
/// entry, clamped down by the query end.  Nothing when the boundary
/// is missed either time or the clamped segment is empty — in those
/// cases the medium can never report an interaction.
pub open spec fn medium_gate(m: ConstantMedium, r: Ray, t0: int, t1: int) -> Option<(int, int)> {
    match crate::hittable::h_cand(*m.boundary, r, -T_INF as int, T_INF as int) {
        None => None,
        Some(ta) => match crate::hittable::h_cand(*m.boundary, r, ta + MEDIUM_EPS, T_INF as int) {
            None => None,
            Some(tb) => {
                let enter0 = if ta >= t0 {
                    ta
                } else {
                    t0
                };
                let exit = if tb <= t1 {
                    tb
                } else {
                    t1
                };
                let enter = if enter0 >= 0 {
                    enter0
                } else {
                    0
                };
                if enter >= exit {
                    None
                } else {
                    Some((enter, exit))
                }
            },
        },
    }
}

impl ConstantMedium {
    /// A medium over a boundary with the given density and a
    /// texture-driven phase function.
    pub fn new(boundary: Box<Hittable>, density: i64, texture: Box<Texture>) -> (r: ConstantMedium)
        requires
            crate::hittable::h_wf(*boundary),
            1 <= density <= MAX_WORLD,
            wf_texture(*texture),
        ensures
            r.boundary == boundary,
            r.density == density,
            r.phase_function == Material::Isotropic(Isotropic { texture }),
            crate::hittable::h_wf(Hittable::Medium(r)),
    {
        ConstantMedium {
            boundary,
            density,
            phase_function: Material::Isotropic(Isotropic::from_texture(texture)),
        }
    }

    /// A medium with a solid-color phase function.
    pub fn from_color(boundary: Box<Hittable>, density: i64, albedo: Color) -> (r: ConstantMedium)
        requires
            crate::hittable::h_wf(*boundary),
            1 <= density <= MAX_WORLD,
            crate::vector::in_world_vec(albedo),
        ensures
            r.boundary == boundary,
            r.density == density,
            r.phase_function == Material::Isotropic(
                Isotropic {
                    texture: Box::new(
                        crate::texture::Texture::Solid(
                            crate::texture::SolidColor { color: albedo },
                        ),
                    ),
                },
            ),
            crate::hittable::h_wf(Hittable::Medium(r)),
    {
        ConstantMedium {
            boundary,
            density,
            phase_function: Material::Isotropic(Isotropic::from_color(albedo)),
        }
    }

    /// Sample a scattering event inside the boundary: find the entry
    /// and exit crossings, clamp them to the query range, draw an
    /// exponential distance from the density, and report a hit only
    /// when the sampled distance falls inside the boundary segment
    /// (and inside the boundary's box).  For a deterministic boundary
    /// a missed or empty segment forces a miss, and a reported hit
    /// lies at or past the segment entry; every reported hit carries
    /// the phase-function material, the ray point at its parameter,
    /// and the fixed placeholder normal.
    pub fn hit<'a>(
        &'a self,
        ray: &Ray,
        t0: i64,
        t1: i64,
        record: &mut HitRecord<'a>,
        rng: &mut RandomSource,
    ) -> (res: bool)
        requires
            crate::hittable::h_wf(Hittable::Medium(*self)),
            wf_ray(*ray),
            -T_INF <= t0 <= T_INF,
            -T_INF <= t1 <= T_INF,
            hitrec_ok(*old(record)),
            old(record).in_ray == *ray,
        ensures
            !res ==> *final(record) == *old(record),
            res ==> elig(
                crate::hittable::h_bbox(Hittable::Medium(*self)),
                *ray,
                t0 as int,
                t1 as int,
                final(record).t as int,
            ),
            res ==> hitrec_ok(*final(record)) && final(record).in_ray == *ray,
            res ==> (final(record).mat matches Some(m) && *m == self.phase_function
                && wf_material(*m)),
            res ==> final(record).point == crate::ray::ray_at_spec(*ray, final(record).t as int),
            res ==> final(record).normal == (Vec3 { x: FX_ONE as i64, y: 0i64, z: 0i64 }),
            res ==> final(record).front_face == true,
            crate::hittable::h_det(*self.boundary) && medium_gate(
                *self,
                *ray,
                t0 as int,
                t1 as int,
            ) is None ==> !res,
            crate::hittable::h_det(*self.boundary) && res ==> (medium_gate(
                *self,
                *ray,
                t0 as int,
                t1 as int,
            ) matches Some(g) && g.0 <= final(record).t <= g.1),
        decreases Hittable::Medium(*self), 0int,
    {
        let mut record1 = HitRecord::new(ray);
        let mut record2 = HitRecord::new(ray);
        if !self.boundary.hit(ray, -T_INF, T_INF, &mut record1, rng) {
            return false;
        }
        if !self.boundary.hit(ray, record1.t + MEDIUM_EPS, T_INF, &mut record2, rng) {
            return false;
        }
        let t_enter_raw = fx_max(record1.t, t0);
        let t_exit = fx_min(record2.t, t1);
        if t_enter_raw >= t_exit {
            return false;
        }
        let t_enter = fx_max(t_enter_raw, 0);
        if t_enter >= t_exit {
            return false;
        }
        let ray_length = ray.direction().length();
        if ray_length <= 0 {
            return false;
        }
        proof {
            assert(ray.direction.x as int * ray.direction.x as int <= 64 * (MAX_WORLD as int
                * MAX_WORLD as int)) by (nonlinear_arith)
                requires
                    abs_int(ray.direction.x as int) <= 8 * MAX_WORLD,
            ;
            assert(ray.direction.y as int * ray.direction.y as int <= 64 * (MAX_WORLD as int
                * MAX_WORLD as int)) by (nonlinear_arith)
                requires
                    abs_int(ray.direction.y as int) <= 8 * MAX_WORLD,
            ;
            assert(ray.direction.z as int * ray.direction.z as int <= 64 * (MAX_WORLD as int
                * MAX_WORLD as int)) by (nonlinear_arith)
                requires
                    abs_int(ray.direction.z as int) <= 8 * MAX_WORLD,
            ;
            assert(ray_length as int <= 57344 * FX_ONE) by (nonlinear_arith)
                requires
                    ray_length as int * ray_length as int <= 192 * (MAX_WORLD as int
                        * MAX_WORLD as int),
                    ray_length >= 0,
                    MAX_WORLD == 0x10_0000_0000,
                    FX_ONE == 0x100_0000,
            ;
            lemma_small_product((t_exit - t_enter) as int, ray_length as int, 8192, 57344);
        }
        let distance_inside = mul_fx(t_exit - t_enter, ray_length);
        let u = rng.next_in(1, FX_ONE + 1);
        let neg_ln = neg_ln_fx(u);
        proof {
            crate::fixed::lemma_tdiv_bound(neg_ln as int * FX_ONE as int, self.density as int);
        }
        let hit_distance = div_fx(neg_ln, self.density);
        if hit_distance > distance_inside {
            return false;
        }
        let dt_w = crate::fixed::div_trunc_i128(
            (hit_distance as i128) * (FX_ONE as i128),
            ray_length as i128,
        );
        if dt_w < 0 || dt_w > 2 * (MAX_WORLD as i128) || t_enter > 2 * MAX_WORLD {
            proof {
                crate::fixed::lemma_tdiv_bound(
                    hit_distance as int * FX_ONE as int,
                    ray_length as int,
                );
            }
            return false;
        }
        let dt = dt_w as i64;
        proof {
            assert(hit_distance >= 0) by {
                vstd::arithmetic::div_mod::lemma_div_pos_is_pos(
                    neg_ln as int * FX_ONE as int,
                    self.density as int,
                );
            }
            lemma_dt_within(
                hit_distance as int,
                distance_inside as int,
                ray_length as int,
                (t_exit - t_enter) as int,
            );
        }
        let t_hit = t_enter + dt;
        let bb = self.boundary.bounding_box();
        proof {
            crate::hittable::lemma_h_bbox_wf(Hittable::Medium(*self));
        }
        if !elig_check(&bb, ray, t_hit, t0, t1) {
            return false;
        }
        record.t = t_hit;
        record.point = ray.at(t_hit);
        record.mat = Some(&self.phase_function);
        record.normal = Vec3 { x: FX_ONE, y: 0, z: 0 };
        record.front_face = true;
        proof {
            crate::aabb::lemma_point_in_box(bb, *ray, t_hit);
        }
        true
    }

    /// The medium shares its boundary's box.
    pub fn bounding_box(&self) -> (r: AABB)
        ensures
            r == crate::hittable::h_bbox(Hittable::Medium(*self)),
    {
        self.boundary.bounding_box()
    }
}

/// The sampled in-medium step, converted back to a ray parameter,
/// never overshoots the segment it was drawn against: dividing the
/// (smaller) sampled distance by the ray length undoes the earlier
/// multiplication, up to truncation toward zero.
proof fn lemma_dt_within(hd: int, di: int, len: int, te: int)
    requires
        0 <= hd <= di,
        len > 0,
        te >= 0,
        di == crate::fixed::fx_mul(te, len),
    ensures
        crate::fixed::tdiv(hd * FX_ONE, len) <= te,
{
    assert(te * len >= 0) by (nonlinear_arith)
        requires
            te >= 0,
            len > 0,
    ;
    vstd::arithmetic::div_mod::lemma_fundamental_div_mod(te * len, FX_ONE as int);
    vstd::arithmetic::div_mod::lemma_mod_bound(te * len, FX_ONE as int);
    assert(di * FX_ONE <= te * len) by (nonlinear_arith)
        requires
            te * len == FX_ONE as int * di + (te * len) % (FX_ONE as int),
            (te * len) % (FX_ONE as int) >= 0,
            FX_ONE == 0x100_0000,
    ;
    assert(hd * FX_ONE <= di * FX_ONE) by (nonlinear_arith)
        requires
            hd <= di,
            FX_ONE == 0x100_0000,
    ;
    crate::fixed::lemma_tdiv_mono(hd * FX_ONE, te * len, len);
    assert(crate::fixed::tdiv(te * len, len) == te) by {
        assert(te * len == len * te) by (nonlinear_arith);
        vstd::arithmetic::div_mod::lemma_div_multiples_vanish(te, len);
    }
}

} // verus!
