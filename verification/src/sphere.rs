//! Spheres with optional linear motion (motion blur).

use vstd::prelude::*;

use crate::aabb::{box_contains, wf_aabb, Interval, AABB};
use crate::fixed::{
    abs_int, div_fx, floor_div, floor_sqrt, fx_clamp, fx_mul, is_floor_sqrt,
    lemma_floor_sqrt_of, tdiv, FX_ONE, MAX_WORLD, T_INF,
};
use crate::hittable::{elig, elig_check, hitrec_ok, HitRecord};
use crate::material::{lemma_small_product, wf_material, Material};
use crate::ray::{ray_at_spec, wf_ray, Ray};
use crate::vector::{dot_spec, in_world_vec, vec_bounded, Vec2, Vec3};

verus! {

/// A (possibly moving) sphere: center at time zero, velocity over
/// the exposure, radius, material, and the box of the swept volume.
pub struct Sphere {
    pub center: Vec3,
    pub velocity: Vec3,
    pub radius: i64,
    pub material: Material,
    pub aabb: AABB,
}

/// One axis of the swept box: from the smaller of the two endpoint
/// centers minus the radius to the larger plus the radius, grown by
/// the degeneracy pad so boundary-grazing hits stay strictly inside.
pub open spec fn sweep_iv(c: int, e: int, radius: int) -> Interval {
    Interval {
        lo: ((if c <= e {
            c
        } else {
            e
        }) - radius - crate::aabb::AABB_PAD) as i64,
        hi: ((if c >= e {
            c
        } else {
            e
        }) + radius + crate::aabb::AABB_PAD) as i64,
    }
}

/// The box of the swept sphere: on every axis the union of the box
/// around the time-zero center and the box around the time-one
/// center, grown outward by the pad.
pub open spec fn sphere_box_spec(center: Vec3, velocity: Vec3, radius: i64) -> AABB {
    AABB {
        x: sweep_iv(center.x as int, center.x + velocity.x, radius as int),
        y: sweep_iv(center.y as int, center.y + velocity.y, radius as int),
        z: sweep_iv(center.z as int, center.z + velocity.z, radius as int),
    }
}

/// The box around one sphere position: the center plus and minus the
/// radius on every axis.
pub open spec fn endpoint_box(c: Vec3, radius: int) -> AABB {
    AABB {
        x: Interval { lo: (c.x - radius) as i64, hi: (c.x + radius) as i64 },
        y: Interval { lo: (c.y - radius) as i64, hi: (c.y + radius) as i64 },
        z: Interval { lo: (c.z - radius) as i64, hi: (c.z + radius) as i64 },
    }
}

/// Geometry parameters are world bounded, the material is well
/// formed, and the stored box is exactly the swept box.
pub open spec fn sphere_wf(s: Sphere) -> bool {
    &&& in_world_vec(s.center)
    &&& in_world_vec(s.velocity)
    &&& 0 <= s.radius <= MAX_WORLD
    &&& abs_int(s.center.x + s.velocity.x) <= MAX_WORLD
    &&& abs_int(s.center.y + s.velocity.y) <= MAX_WORLD
    &&& abs_int(s.center.z + s.velocity.z) <= MAX_WORLD
    &&& wf_material(s.material)
    &&& wf_aabb(s.aabb)
    &&& s.aabb == sphere_box_spec(s.center, s.velocity, s.radius)
}

/// The center at the ray's time stamp.
pub open spec fn sphere_center_at(s: Sphere, time: int) -> Vec3 {
    Vec3 {
        x: (s.center.x + fx_mul(s.velocity.x as int, time)) as i64,
        y: (s.center.y + fx_mul(s.velocity.y as int, time)) as i64,
        z: (s.center.z + fx_mul(s.velocity.z as int, time)) as i64,
    }
}

/// The hit parameter the sphere reports for a ray and range, if any:
/// the quadratic is solved over fixed point, the nearer root is
/// preferred, and a root counts only when it is strictly inside the
/// query range and the sphere's own box.
pub open spec fn sphere_cand(s: Sphere, r: Ray, t0: int, t1: int) -> Option<int> {
    let ct = sphere_center_at(s, r.time as int);
    let oc = Vec3 { x: (ct.x - r.origin.x) as i64, y: (ct.y - r.origin.y) as i64, z: (ct.z
        - r.origin.z) as i64 };
    let a = dot_spec(r.direction, r.direction);
    let h = dot_spec(r.direction, oc);
    let c = dot_spec(oc, oc) - fx_mul(s.radius as int, s.radius as int);
    let disc = h * h - a * c;
    if a <= 0 || disc < 0 {
        None
    } else {
        let sd = floor_sqrt(disc);
        let root1 = tdiv((h - sd) * FX_ONE, a);
        let root2 = tdiv((h + sd) * FX_ONE, a);
        if elig(s.aabb, r, t0, t1, root1) {
            Some(root1)
        } else if elig(s.aabb, r, t0, t1, root2) {
            Some(root2)
        } else {
            None
        }
    }
}

/// The outward normal the sphere reports at parameter `t`: the
/// offset from the center scaled by the inverse radius, clamped to
/// the unit-scale range of record normals.
pub open spec fn sphere_outward_spec(s: Sphere, r: Ray, t: int) -> Vec3 {
    let p = ray_at_spec(r, t);
    let ct = sphere_center_at(s, r.time as int);
    let nr = if s.radius <= 0 {
        1int
    } else {
        s.radius as int
    };
    Vec3 {
        x: crate::fixed::clamp_spec(
            crate::fixed::fx_div(p.x - ct.x, nr),
            -2 * FX_ONE,
            2 * FX_ONE,
        ) as i64,
        y: crate::fixed::clamp_spec(
            crate::fixed::fx_div(p.y - ct.y, nr),
            -2 * FX_ONE,
            2 * FX_ONE,
        ) as i64,
        z: crate::fixed::clamp_spec(
            crate::fixed::fx_div(p.z - ct.z, nr),
            -2 * FX_ONE,
            2 * FX_ONE,
        ) as i64,
    }
}

/// The surface coordinates of an outward normal, exactly as the
/// sphere computes them: the vertical coordinate rises linearly from
/// the south pole at zero to the north pole at one; the horizontal
/// one walks the equator through the absolute-value octant fractions,
/// with one half where the positive x axis crosses it.
pub open spec fn sphere_uv_spec(p: Vec3) -> Vec2 {
    let v = (crate::fixed::clamp_spec(FX_ONE + p.y, 0, 2 * FX_ONE) / 2) as i64;
    let ax = abs_int(p.x as int);
    let az = abs_int(p.z as int);
    let side = ax + az;
    if side <= 0 {
        Vec2 { x: (FX_ONE / 2) as i64, y: v }
    } else {
        let f = crate::fixed::fx_div(az, side);
        let angle4 = if p.x >= 0 {
            if p.z >= 0 {
                f
            } else {
                4 * FX_ONE - f
            }
        } else {
            if p.z >= 0 {
                2 * FX_ONE - f
            } else {
                2 * FX_ONE + f
            }
        };
        let shifted = 2 * FX_ONE - angle4;
        let wrapped = if shifted < 0 {
            shifted + 4 * FX_ONE
        } else {
            shifted
        };
        Vec2 { x: (wrapped / 4) as i64, y: v }
    }
}

impl Sphere {
    /// A sphere from its center, per-exposure velocity, radius and
    /// material; the stored box is the union of the boxes around the
    /// time-zero and time-one positions, so it covers the whole sweep.
    pub fn new(center: Vec3, velocity: Vec3, radius: i64, material: Material) -> (r: Sphere)
        requires
            in_world_vec(center),
            in_world_vec(velocity),
            0 <= radius <= MAX_WORLD,
            abs_int(center.x + velocity.x) <= MAX_WORLD,
            abs_int(center.y + velocity.y) <= MAX_WORLD,
            abs_int(center.z + velocity.z) <= MAX_WORLD,
            wf_material(material),
        ensures
            sphere_wf(r),
            r.center == center,
            r.velocity == velocity,
            r.radius == radius,
            r.material == material,
            r.aabb == sphere_box_spec(center, velocity, radius),
            box_contains(r.aabb, endpoint_box(center, radius as int)),
            box_contains(
                r.aabb,
                endpoint_box(
                    Vec3 {
                        x: (center.x + velocity.x) as i64,
                        y: (center.y + velocity.y) as i64,
                        z: (center.z + velocity.z) as i64,
                    },
                    radius as int,
                ),
            ),
    {
        let ex = center.x + velocity.x;
        let ey = center.y + velocity.y;
        let ez = center.z + velocity.z;
        let aabb = AABB {
            x: Interval {
                lo: crate::fixed::fx_min(center.x, ex) - radius - crate::aabb::AABB_PAD,
                hi: crate::fixed::fx_max(center.x, ex) + radius + crate::aabb::AABB_PAD,
            },
            y: Interval {
                lo: crate::fixed::fx_min(center.y, ey) - radius - crate::aabb::AABB_PAD,
                hi: crate::fixed::fx_max(center.y, ey) + radius + crate::aabb::AABB_PAD,
            },
            z: Interval {
                lo: crate::fixed::fx_min(center.z, ez) - radius - crate::aabb::AABB_PAD,
                hi: crate::fixed::fx_max(center.z, ez) + radius + crate::aabb::AABB_PAD,
            },
        };
        Sphere { center, velocity, radius, material, aabb }
    }

    /// Surface coordinates from the outward normal: the vertical
    /// coordinate rises linearly from the south pole at zero to the
    /// north pole at one; the horizontal one walks the equator
    /// monotonically with one half where the positive x axis crosses
    /// it.
    fn get_uv(point: &Vec3) -> (uv: Vec2)
        requires
            abs_int(point.x as int) <= 2 * FX_ONE,
            abs_int(point.y as int) <= 2 * FX_ONE,
            abs_int(point.z as int) <= 2 * FX_ONE,
        ensures
            uv == sphere_uv_spec(*point),
            0 <= uv.x <= FX_ONE,
            0 <= uv.y <= FX_ONE,
    {
        let clipped = fx_clamp(FX_ONE + point.y, 0, 2 * FX_ONE);
        let v = floor_div(clipped, 2);
        proof {
            vstd::arithmetic::div_mod::lemma_div_pos_is_pos(clipped as int, 2);
            vstd::arithmetic::div_mod::lemma_div_is_ordered(clipped as int, 2 * FX_ONE, 2);
        }
        let ax = crate::fixed::fx_abs(point.x);
        let az = crate::fixed::fx_abs(point.z);
        let s = ax + az;
        if s <= 0 {
            return Vec2 { x: FX_ONE / 2, y: v };
        }
        proof {
            crate::fixed::lemma_tdiv_bound(az as int * FX_ONE, s as int);
            assert(abs_int(az as int * FX_ONE) <= s as int * FX_ONE) by (nonlinear_arith)
                requires
                    0 <= az <= s,
                    FX_ONE == 0x100_0000,
            ;
            vstd::arithmetic::div_mod::lemma_div_is_ordered(
                abs_int(az as int * FX_ONE),
                s as int * FX_ONE,
                s as int,
            );
            vstd::arithmetic::div_mod::lemma_div_multiples_vanish(FX_ONE as int, s as int);
            vstd::arithmetic::div_mod::lemma_div_pos_is_pos(az as int * FX_ONE, s as int);
        }
        let f = div_fx(az, s);
        let angle4 = if point.x >= 0 {
            if point.z >= 0 {
                f
            } else {
                4 * FX_ONE - f
            }
        } else {
            if point.z >= 0 {
                2 * FX_ONE - f
            } else {
                2 * FX_ONE + f
            }
        };
        let shifted = 2 * FX_ONE - angle4;
        let wrapped = if shifted < 0 {
            shifted + 4 * FX_ONE
        } else {
            shifted
        };
        let u = floor_div(wrapped, 4);
        proof {
            vstd::arithmetic::div_mod::lemma_div_pos_is_pos(wrapped as int, 4);
            vstd::arithmetic::div_mod::lemma_div_is_ordered(wrapped as int, 4 * FX_ONE, 4);
            assert((4 * FX_ONE) / 4 == FX_ONE);
        }
        Vec2 { x: u, y: v }
    }

    /// Analytic ray intersection: the nearer quadratic root inside
    /// the range and the swept box wins; the result matches
    /// `sphere_cand` exactly.
    #[verifier::rlimit(100)]
    pub fn hit<'a>(&'a self, ray: &Ray, t0: i64, t1: i64, record: &mut HitRecord<'a>) -> (res:
        bool)
        requires
            sphere_wf(*self),
            wf_ray(*ray),
            -T_INF <= t0 <= T_INF,
            -T_INF <= t1 <= T_INF,
            hitrec_ok(*old(record)),
            old(record).in_ray == *ray,
        ensures
            !res ==> *final(record) == *old(record),
            res ==> elig(self.aabb, *ray, t0 as int, t1 as int, final(record).t as int),
            res ==> hitrec_ok(*final(record)) && final(record).in_ray == *ray,
            res ==> (final(record).mat matches Some(m) && *m == self.material),
            res ==> final(record).point == ray_at_spec(*ray, final(record).t as int),
            res ==> final(record).front_face == (dot_spec(
                ray.direction,
                sphere_outward_spec(*self, *ray, final(record).t as int),
            ) < 0),
            res ==> final(record).normal == crate::hittable::oriented_normal(
                ray.direction,
                sphere_outward_spec(*self, *ray, final(record).t as int),
            ),
            res ==> final(record).uv == sphere_uv_spec(
                sphere_outward_spec(*self, *ray, final(record).t as int),
            ),
            res ==> 0 <= final(record).uv.x <= FX_ONE && 0 <= final(record).uv.y <= FX_ONE,
            match sphere_cand(*self, *ray, t0 as int, t1 as int) {
                Some(t) => res && final(record).t == t,
                None => !res,
            },
    {
        let time = ray.time;
        proof {
            lemma_small_product(self.velocity.x as int, time as int, 0x8_0000, 1);
            lemma_small_product(self.velocity.y as int, time as int, 0x8_0000, 1);
            lemma_small_product(self.velocity.z as int, time as int, 0x8_0000, 1);
        }
        let ct = self.center.add(self.velocity.scale(time));
        let oc = ct.sub(ray.origin());
        proof {
            assert(vec_bounded(oc)) by {
                assert(abs_int(fx_mul(self.velocity.x as int, time as int)) <= MAX_WORLD) by {
                    lemma_scaled_velocity(self.velocity.x as int, time as int);
                }
                assert(abs_int(fx_mul(self.velocity.y as int, time as int)) <= MAX_WORLD) by {
                    lemma_scaled_velocity(self.velocity.y as int, time as int);
                }
                assert(abs_int(fx_mul(self.velocity.z as int, time as int)) <= MAX_WORLD) by {
                    lemma_scaled_velocity(self.velocity.z as int, time as int);
                }
            }
        }
        proof {
            lemma_small_product(ray.direction.x as int, ray.direction.x as int, 32768, 32768);
            lemma_small_product(ray.direction.y as int, ray.direction.y as int, 32768, 32768);
            lemma_small_product(ray.direction.z as int, ray.direction.z as int, 32768, 32768);
            lemma_small_product(ray.direction.x as int, oc.x as int, 32768, 32768);
            lemma_small_product(ray.direction.y as int, oc.y as int, 32768, 32768);
            lemma_small_product(ray.direction.z as int, oc.z as int, 32768, 32768);
            lemma_small_product(oc.x as int, oc.x as int, 32768, 32768);
            lemma_small_product(oc.y as int, oc.y as int, 32768, 32768);
            lemma_small_product(oc.z as int, oc.z as int, 32768, 32768);
        }
        let a = ray.direction().dot(ray.direction());
        let h = ray.direction().dot(oc);
        proof {
            lemma_small_product(self.radius as int, self.radius as int, 4096, 4096);
        }
        let c = oc.dot(oc) - crate::fixed::mul_fx(self.radius, self.radius);
        proof {
            assert(abs_int(h as int * h as int) <= 0x1_0000_0000_0000_0000_0000_0000_0000
                && abs_int(a as int * c as int) <= 0x1_0000_0000_0000_0000_0000_0000_0000)
                by (nonlinear_arith)
                requires
                    abs_int(h as int) <= 3 * (32768 * 32768 * 0x100_0000),
                    abs_int(a as int) <= 3 * (32768 * 32768 * 0x100_0000),
                    abs_int(c as int) <= 3 * (32768 * 32768 * 0x100_0000) + 4096 * 4096
                        * 0x100_0000,
            ;
        }
        let disc: i128 = (h as i128) * (h as i128) - (a as i128) * (c as i128);
        if a <= 0 || disc < 0 {
            return false;
        }
        let sd128 = crate::fixed::isqrt_u128(disc as u128) as i128;
        proof {
            assert(is_floor_sqrt(disc as int, sd128 as int));
            lemma_floor_sqrt_of(disc as int, sd128 as int);
        }
        let num1: i128 = ((h as i128) - sd128) * (FX_ONE as i128);
        let num2: i128 = ((h as i128) + sd128) * (FX_ONE as i128);
        let root1_w = crate::fixed::div_trunc_i128(num1, a as i128);
        let root2_w = crate::fixed::div_trunc_i128(num2, a as i128);
        let chosen: i64 = if -(MAX_WORLD as i128) <= root1_w && root1_w <= MAX_WORLD as i128 && elig_check(
            &self.aabb,
            ray,
            root1_w as i64,
            t0,
            t1,
        ) {
            root1_w as i64
        } else if -(MAX_WORLD as i128) <= root2_w && root2_w <= MAX_WORLD as i128 && elig_check(
            &self.aabb,
            ray,
            root2_w as i64,
            t0,
            t1,
        ) {
            root2_w as i64
        } else {
            proof {
                lemma_root_out_of_range(self.aabb, *ray, t0 as int, t1 as int, root1_w as int);
                lemma_root_out_of_range(self.aabb, *ray, t0 as int, t1 as int, root2_w as int);
            }
            return false;
        };
        record.t = chosen;
        record.point = ray.at(chosen);
        record.mat = Some(&self.material);
        let nr = if self.radius <= 0 {
            1
        } else {
            self.radius
        };
        proof {
            lemma_scaled_velocity(self.velocity.x as int, time as int);
            lemma_scaled_velocity(self.velocity.y as int, time as int);
            lemma_scaled_velocity(self.velocity.z as int, time as int);
            lemma_outward_bounds(record.point.x as int, ct.x as int, nr as int);
            lemma_outward_bounds(record.point.y as int, ct.y as int, nr as int);
            lemma_outward_bounds(record.point.z as int, ct.z as int, nr as int);
        }
        let outward = Vec3 {
            x: fx_clamp(div_fx(record.point.x - ct.x, nr), -2 * FX_ONE, 2 * FX_ONE),
            y: fx_clamp(div_fx(record.point.y - ct.y, nr), -2 * FX_ONE, 2 * FX_ONE),
            z: fx_clamp(div_fx(record.point.z - ct.z, nr), -2 * FX_ONE, 2 * FX_ONE),
        };
        proof {
            assert(outward == sphere_outward_spec(*self, *ray, chosen as int));
        }
        record.set_normal(ray, &outward);
        record.uv = Self::get_uv(&outward);
        proof {
            crate::aabb::lemma_point_in_box(self.aabb, *ray, chosen);
        }
        true
    }

    /// The stored bounding box.
    pub fn bounding_box(&self) -> (r: AABB)
        ensures
            r == self.aabb,
    {
        self.aabb
    }
}

/// The stored box covers the sphere at every exposure time, with the
/// pad to spare: the interpolated center stays strictly more than the
/// radius away from every face of the box.
pub proof fn lemma_sphere_box_covers_sweep(s: Sphere, time: int)
    requires
        sphere_wf(s),
        0 <= time <= FX_ONE,
    ensures
        s.aabb.x.lo < sphere_center_at(s, time).x - s.radius,
        sphere_center_at(s, time).x + s.radius < s.aabb.x.hi,
        s.aabb.y.lo < sphere_center_at(s, time).y - s.radius,
        sphere_center_at(s, time).y + s.radius < s.aabb.y.hi,
        s.aabb.z.lo < sphere_center_at(s, time).z - s.radius,
        sphere_center_at(s, time).z + s.radius < s.aabb.z.hi,
{
    lemma_interp_between(s.velocity.x as int, time);
    lemma_interp_between(s.velocity.y as int, time);
    lemma_interp_between(s.velocity.z as int, time);
}

/// A velocity scaled by a time in `[0, 1]` lies between zero and the
/// full velocity.
proof fn lemma_interp_between(v: int, time: int)
    requires
        abs_int(v) <= MAX_WORLD,
        0 <= time <= FX_ONE,
    ensures
        v >= 0 ==> 0 <= fx_mul(v, time) <= v,
        v < 0 ==> v <= fx_mul(v, time) <= 0,
{
    if v >= 0 {
        assert(0 <= v * time <= v * FX_ONE) by (nonlinear_arith)
            requires
                v >= 0,
                0 <= time <= FX_ONE,
        ;
        crate::fixed::lemma_tdiv_mono(0, v * time, FX_ONE as int);
        crate::fixed::lemma_tdiv_mono(v * time, v * FX_ONE, FX_ONE as int);
        assert(v * FX_ONE == FX_ONE as int * v) by (nonlinear_arith);
        vstd::arithmetic::div_mod::lemma_div_multiples_vanish(v, FX_ONE as int);
    } else {
        assert(v * FX_ONE <= v * time <= 0) by (nonlinear_arith)
            requires
                v < 0,
                0 <= time <= FX_ONE,
        ;
        crate::fixed::lemma_tdiv_mono(v * FX_ONE, v * time, FX_ONE as int);
        crate::fixed::lemma_tdiv_mono(v * time, 0, FX_ONE as int);
        assert(tdiv(v * FX_ONE, FX_ONE as int) == v) by {
            assert(-(v * FX_ONE) == (-v) * FX_ONE && (-v) * FX_ONE == FX_ONE as int * (-v))
                by (nonlinear_arith);
            vstd::arithmetic::div_mod::lemma_div_multiples_vanish(-v, FX_ONE as int);
        }
    }
}

proof fn lemma_root_out_of_range(b: AABB, r: Ray, t0: int, t1: int, root: int)
    requires
        !(-MAX_WORLD <= root <= MAX_WORLD && elig(b, r, t0, t1, root)),
    ensures
        !elig(b, r, t0, t1, root),
{
}

proof fn lemma_scaled_velocity(v: int, time: int)
    requires
        abs_int(v) <= MAX_WORLD,
        0 <= time <= FX_ONE,
    ensures
        abs_int(fx_mul(v, time)) <= MAX_WORLD,
{
    assert(abs_int(v * time) <= MAX_WORLD as int * FX_ONE as int) by (nonlinear_arith)
        requires
            abs_int(v) <= MAX_WORLD,
            0 <= time <= FX_ONE,
    ;
    crate::fixed::lemma_tdiv_bound(v * time, FX_ONE as int);
    vstd::arithmetic::div_mod::lemma_div_is_ordered(
        abs_int(v * time),
        MAX_WORLD as int * FX_ONE as int,
        FX_ONE as int,
    );
    vstd::arithmetic::div_mod::lemma_div_multiples_vanish(MAX_WORLD as int, FX_ONE as int);
}

proof fn lemma_outward_bounds(p: int, c: int, nr: int)
    requires
        abs_int(p) <= 4 * MAX_WORLD,
        abs_int(c) <= 2 * MAX_WORLD,
        1 <= nr <= MAX_WORLD,
    ensures
        abs_int(crate::fixed::fx_div(p - c, nr)) <= 0x7fff_ffff_ffff_ffff,
        abs_int((p - c) * FX_ONE) <= 0x7fff_ffff_ffff_ffff * (FX_ONE as int),
{
    crate::fixed::lemma_tdiv_bound((p - c) * FX_ONE, nr);
    assert(abs_int((p - c) * FX_ONE) <= 6 * (MAX_WORLD as int) * (FX_ONE as int) && 6 * (
    MAX_WORLD as int) * (FX_ONE as int) <= 0x7fff_ffff_ffff_ffff * (FX_ONE as int)
        && 6 * (MAX_WORLD as int) * (FX_ONE as int) <= 0x7fff_ffff_ffff_ffff)
        by (nonlinear_arith)
        requires
            abs_int(p - c) <= 6 * MAX_WORLD,
            MAX_WORLD == 0x10_0000_0000,
            FX_ONE == 0x100_0000,
    ;
    vstd::arithmetic::div_mod::lemma_div_is_ordered(
        abs_int((p - c) * FX_ONE),
        6 * (MAX_WORLD as int) * (FX_ONE as int),
        nr,
    );
    vstd::arithmetic::div_mod::lemma_div_is_ordered_by_denominator(
        6 * (MAX_WORLD as int) * (FX_ONE as int),
        1,
        nr,
    );
    assert(6 * (MAX_WORLD as int) * (FX_ONE as int) / 1 == 6 * (MAX_WORLD as int) * (
    FX_ONE as int));
}

} // verus!
