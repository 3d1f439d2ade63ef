//! Planar quadrilaterals, and axis-aligned boxes built from six of
//! them.

use vstd::prelude::*;

use crate::aabb::{wf_aabb, AABB};
use crate::fixed::{abs_int, div_trunc_i128, tdiv, FX_ONE, MAX_WORLD, T_INF};
use crate::hittable::{elig, elig_check, hitrec_ok, HitRecord, Hittable};
use crate::material::{lemma_small_product, wf_material, Material};
use crate::ray::{ray_at_spec, wf_ray, Ray};
use crate::vector::{cross_spec, dot_spec, in_world_vec, Vec2, Vec3};

verus! {

/// A parallelogram: corner point, two edge vectors, the plane data
/// derived from them, and a padded bounding box.
pub struct Quad {
    pub point: Vec3,
    pub u: Vec3,
    pub v: Vec3,
    pub material: Material,
    pub aabb: AABB,
    pub normal: Vec3,
    pub d: i64,
    pub n: Vec3,
}

/// Geometry is world bounded; the raw cross product and derived
/// plane constant stay within the ranges the intersection arithmetic
/// needs; the box is well formed.
pub open spec fn quad_wf(q: Quad) -> bool {
    &&& in_world_vec(q.point)
    &&& in_world_vec(q.u)
    &&& in_world_vec(q.v)
    &&& wf_material(q.material)
    &&& wf_aabb(q.aabb)
    &&& abs_int(q.normal.x as int) <= 2 * FX_ONE
    &&& abs_int(q.normal.y as int) <= 2 * FX_ONE
    &&& abs_int(q.normal.z as int) <= 2 * FX_ONE
    &&& abs_int(q.d as int) <= 0x1000_0000_0000_0000
    &&& abs_int(q.n.x as int) <= 0x2_0000_0000_0000
    &&& abs_int(q.n.y as int) <= 0x2_0000_0000_0000
    &&& abs_int(q.n.z as int) <= 0x2_0000_0000_0000
}

/// The planar coordinate of `x` along the unnormalized plane basis:
/// `dot(n, x) / |n|^2`, scaled to fixed point, or nothing when it
/// falls outside `[0, 1)`.
pub open spec fn quad_planar_coord(n: Vec3, x: Vec3, nsq: int) -> int {
    tdiv((n.x * x.x + n.y * x.y + n.z * x.z) * FX_ONE, nsq)
}

/// One halving step of the shrink loop, componentwise floor division
/// by two.
pub open spec fn halved(w: Vec3) -> Vec3 {
    Vec3 {
        x: (w.x as int / 2) as i64,
        y: (w.y as int / 2) as i64,
        z: (w.z as int / 2) as i64,
    }
}

/// The vector is within the range the normalization arithmetic
/// accepts.
pub open spec fn shrink_done(w: Vec3) -> bool {
    &&& -8 * MAX_WORLD <= w.x <= 8 * MAX_WORLD
    &&& -8 * MAX_WORLD <= w.y <= 8 * MAX_WORLD
    &&& -8 * MAX_WORLD <= w.z <= 8 * MAX_WORLD
}

/// The result of the shrink loop: halve until every component is in
/// the safe range, for at most the guard bound of steps.
pub open spec fn shrink_spec(w: Vec3, guard: int) -> Vec3
    decreases 64 - guard,
{
    if guard >= 64 || shrink_done(w) {
        w
    } else {
        shrink_spec(halved(w), guard + 1)
    }
}

/// The plane normal the quad constructor stores for a raw cross
/// product: the cross is halved into the safe range and normalized;
/// a vanishing (or still oversized) result falls back to the world
/// up direction.
pub open spec fn plane_normal_spec(n: Vec3) -> Vec3 {
    let w = shrink_spec(n, 0);
    if !shrink_done(w) || (w.x == 0 && w.y == 0 && w.z == 0) {
        Vec3 { x: 0i64, y: FX_ONE as i64, z: 0i64 }
    } else {
        crate::vector::normalized_spec(w)
    }
}

/// The box the quad constructor stores: the union of the boxes over
/// both diagonals of the parallelogram, grown by the pad so grazing
/// hits stay strictly inside.
pub open spec fn quad_box_spec(point: Vec3, u: Vec3, v: Vec3) -> AABB {
    let pu = Vec3 { x: (point.x + u.x) as i64, y: (point.y + u.y) as i64, z: (point.z + u.z) as i64 };
    let pv = Vec3 { x: (point.x + v.x) as i64, y: (point.y + v.y) as i64, z: (point.z + v.z) as i64 };
    let puv = Vec3 {
        x: (point.x + u.x + v.x) as i64,
        y: (point.y + u.y + v.y) as i64,
        z: (point.z + u.z + v.z) as i64,
    };
    let d1 = AABB {
        x: crate::aabb::pad_iv(crate::aabb::norm_iv(crate::aabb::Interval { lo: point.x, hi: puv.x })),
        y: crate::aabb::pad_iv(crate::aabb::norm_iv(crate::aabb::Interval { lo: point.y, hi: puv.y })),
        z: crate::aabb::pad_iv(crate::aabb::norm_iv(crate::aabb::Interval { lo: point.z, hi: puv.z })),
    };
    let d2 = AABB {
        x: crate::aabb::pad_iv(crate::aabb::norm_iv(crate::aabb::Interval { lo: pu.x, hi: pv.x })),
        y: crate::aabb::pad_iv(crate::aabb::norm_iv(crate::aabb::Interval { lo: pu.y, hi: pv.y })),
        z: crate::aabb::pad_iv(crate::aabb::norm_iv(crate::aabb::Interval { lo: pu.z, hi: pv.z })),
    };
    let tight = crate::aabb::combine_spec(d1, d2);
    AABB {
        x: crate::aabb::Interval {
            lo: (tight.x.lo - crate::aabb::AABB_PAD) as i64,
            hi: (tight.x.hi + crate::aabb::AABB_PAD) as i64,
        },
        y: crate::aabb::Interval {
            lo: (tight.y.lo - crate::aabb::AABB_PAD) as i64,
            hi: (tight.y.hi + crate::aabb::AABB_PAD) as i64,
        },
        z: crate::aabb::Interval {
            lo: (tight.z.lo - crate::aabb::AABB_PAD) as i64,
            hi: (tight.z.hi + crate::aabb::AABB_PAD) as i64,
        },
    }
}

/// The surface coordinates the quad reports at hit parameter `t`:
/// the planar coordinates of the intersection point along the two
/// edge directions.
pub open spec fn quad_uv_spec(q: Quad, r: Ray, t: int) -> Vec2 {
    let nsq = q.n.x * q.n.x + q.n.y * q.n.y + q.n.z * q.n.z;
    let inter = ray_at_spec(r, t);
    let planar = Vec3 {
        x: (inter.x - q.point.x) as i64,
        y: (inter.y - q.point.y) as i64,
        z: (inter.z - q.point.z) as i64,
    };
    Vec2 {
        x: quad_planar_coord(q.n, cross_spec(planar, q.v), nsq) as i64,
        y: quad_planar_coord(q.n, cross_spec(q.u, planar), nsq) as i64,
    }
}

/// The hit parameter the quad reports, if any: the plane crossing
/// must be strictly inside the range and the quad's box, and the
/// planar coordinates must land inside the unit cell.
pub open spec fn quad_cand(q: Quad, r: Ray, t0: int, t1: int) -> Option<int> {
    let denom = dot_spec(r.direction, q.normal);
    let nsq = q.n.x * q.n.x + q.n.y * q.n.y + q.n.z * q.n.z;
    if denom == 0 || nsq <= 0 {
        None
    } else {
        let t = crate::fixed::fx_div(q.d - dot_spec(q.normal, r.origin), denom);
        if !elig(q.aabb, r, t0, t1, t) {
            None
        } else {
            let inter = ray_at_spec(r, t);
            let planar = Vec3 {
                x: (inter.x - q.point.x) as i64,
                y: (inter.y - q.point.y) as i64,
                z: (inter.z - q.point.z) as i64,
            };
            let alpha = quad_planar_coord(q.n, cross_spec(planar, q.v), nsq);
            let beta = quad_planar_coord(q.n, cross_spec(q.u, planar), nsq);
            if 0 <= alpha && alpha < FX_ONE && 0 <= beta && beta < FX_ONE {
                Some(t)
            } else {
                None
            }
        }
    }
}

impl Quad {
    /// A quad from a corner and two edges; precomputes the plane and
    /// a box over both diagonals.
    #[verifier::rlimit(100)]
    pub fn new(point: Vec3, u: Vec3, v: Vec3, material: Material) -> (r: Quad)
        requires
            in_world_vec(point),
            in_world_vec(u),
            in_world_vec(v),
            abs_int(point.x + u.x + v.x) <= MAX_WORLD,
            abs_int(point.y + u.y + v.y) <= MAX_WORLD,
            abs_int(point.z + u.z + v.z) <= MAX_WORLD,
            abs_int(point.x + u.x) <= MAX_WORLD && abs_int(point.x + v.x) <= MAX_WORLD,
            abs_int(point.y + u.y) <= MAX_WORLD && abs_int(point.y + v.y) <= MAX_WORLD,
            abs_int(point.z + u.z) <= MAX_WORLD && abs_int(point.z + v.z) <= MAX_WORLD,
            wf_material(material),
        ensures
            quad_wf(r),
            r.point == point,
            r.u == u,
            r.v == v,
            r.material == material,
            r.n == cross_spec(u, v),
            r.normal == plane_normal_spec(cross_spec(u, v)),
            r.d == dot_spec(r.normal, point),
            r.aabb == quad_box_spec(point, u, v),
    {
        proof {
            lemma_small_product(u.x as int, v.x as int, 4096, 4096);
            lemma_small_product(u.x as int, v.y as int, 4096, 4096);
            lemma_small_product(u.x as int, v.z as int, 4096, 4096);
            lemma_small_product(u.y as int, v.x as int, 4096, 4096);
            lemma_small_product(u.y as int, v.y as int, 4096, 4096);
            lemma_small_product(u.y as int, v.z as int, 4096, 4096);
            lemma_small_product(u.z as int, v.x as int, 4096, 4096);
            lemma_small_product(u.z as int, v.y as int, 4096, 4096);
            lemma_small_product(u.z as int, v.z as int, 4096, 4096);
        }
        let n = u.cross(v);
        let normal = Self::shrink_normalize(n);
        proof {
            lemma_small_product(normal.x as int, point.x as int, 1, 4096);
            lemma_small_product(normal.y as int, point.y as int, 1, 4096);
            lemma_small_product(normal.z as int, point.z as int, 1, 4096);
        }
        let d = normal.dot(point);
        let pu = point.add(u);
        let pv = point.add(v);
        let puv = pu.add(v);
        let diagonal_1 = AABB::from_points(&point, &puv);
        let diagonal_2 = AABB::from_points(&pu, &pv);
        let tight = AABB::combine_bounds(&diagonal_1, &diagonal_2);
        // grow by the pad so boundary-grazing hits stay strictly inside
        let aabb = AABB {
            x: crate::aabb::Interval {
                lo: tight.x.lo - crate::aabb::AABB_PAD,
                hi: tight.x.hi + crate::aabb::AABB_PAD,
            },
            y: crate::aabb::Interval {
                lo: tight.y.lo - crate::aabb::AABB_PAD,
                hi: tight.y.hi + crate::aabb::AABB_PAD,
            },
            z: crate::aabb::Interval {
                lo: tight.z.lo - crate::aabb::AABB_PAD,
                hi: tight.z.hi + crate::aabb::AABB_PAD,
            },
        };
        Quad { point, u, v, material, aabb, normal, d, n }
    }

    /// Scale a raw cross product down until it is safe to normalize,
    /// preserving its direction up to the grid; a vanishing input
    /// falls back to the world up direction.  The result is pinned by
    /// `plane_normal_spec`.
    fn shrink_normalize(n: Vec3) -> (r: Vec3)
        requires
            abs_int(n.x as int) <= 0x2_0000_0000_0000,
            abs_int(n.y as int) <= 0x2_0000_0000_0000,
            abs_int(n.z as int) <= 0x2_0000_0000_0000,
        ensures
            r == plane_normal_spec(n),
            abs_int(r.x as int) <= FX_ONE,
            abs_int(r.y as int) <= FX_ONE,
            abs_int(r.z as int) <= FX_ONE,
    {
        let mut w = n;
        let mut guard: usize = 0;
        while guard < 64 && (w.x > 8 * MAX_WORLD || w.x < -8 * MAX_WORLD || w.y > 8 * MAX_WORLD
            || w.y < -8 * MAX_WORLD || w.z > 8 * MAX_WORLD || w.z < -8 * MAX_WORLD)
            invariant
                guard <= 64,
                shrink_spec(n, 0) == shrink_spec(w, guard as int),
                abs_int(w.x as int) <= 0x2_0000_0000_0000,
                abs_int(w.y as int) <= 0x2_0000_0000_0000,
                abs_int(w.z as int) <= 0x2_0000_0000_0000,
            decreases 64 - guard,
        {
            w = Vec3 {
                x: crate::fixed::floor_div(w.x, 2),
                y: crate::fixed::floor_div(w.y, 2),
                z: crate::fixed::floor_div(w.z, 2),
            };
            guard = guard + 1;
        }
        proof {
            assert(w == shrink_spec(n, 0));
        }
        if w.x > 8 * MAX_WORLD || w.x < -8 * MAX_WORLD || w.y > 8 * MAX_WORLD || w.y < -8
            * MAX_WORLD || w.z > 8 * MAX_WORLD || w.z < -8 * MAX_WORLD {
            return Vec3 { x: 0, y: FX_ONE, z: 0 };
        }
        if w.x == 0 && w.y == 0 && w.z == 0 {
            return Vec3 { x: 0, y: FX_ONE, z: 0 };
        }
        w.normalized()
    }

    /// The six faces of the axis-aligned box spanned by two opposite
    /// corners, one material copy per face, gathered in a list whose
    /// members' corners and edges are pinned by `box_face_spec`.
    #[verifier::rlimit(100)]
    pub fn box_from_opposite_corners(a: Vec3, b: Vec3, material: Material) -> (r: Hittable)
        requires
            abs_int(a.x as int) <= MAX_WORLD / 2 && abs_int(a.y as int) <= MAX_WORLD / 2
                && abs_int(a.z as int) <= MAX_WORLD / 2,
            abs_int(b.x as int) <= MAX_WORLD / 2 && abs_int(b.y as int) <= MAX_WORLD / 2
                && abs_int(b.z as int) <= MAX_WORLD / 2,
            wf_material(material),
        ensures
            crate::hittable::h_wf(r),
            crate::hittable::h_det(r),
            r matches Hittable::List(l) && box_face_spec(
                l.objects@,
                crate::hittable::vec_min_spec(a, b),
                crate::hittable::vec_max_spec(a, b),
            ),
    {
        let mut sides = crate::hittable::HittableList::new();
        let min = crate::vector::min_vec3(&a, &b);
        let max = crate::vector::max_vec3(&a, &b);
        let diff = max.sub(min);
        let dx = Vec3 { x: diff.x, y: 0, z: 0 };
        let dy = Vec3 { x: 0, y: diff.y, z: 0 };
        let dz = Vec3 { x: 0, y: 0, z: diff.z };
        let q1 = Quad::new(
            Vec3 { x: min.x, y: min.y, z: max.z },
            dx,
            dy,
            material.dup(),
        );
        sides.add(Hittable::Quad(q1));
        let q2 = Quad::new(
            Vec3 { x: max.x, y: min.y, z: max.z },
            dz.neg(),
            dy,
            material.dup(),
        );
        sides.add(Hittable::Quad(q2));
        let q3 = Quad::new(
            Vec3 { x: max.x, y: min.y, z: min.z },
            dx.neg(),
            dy,
            material.dup(),
        );
        sides.add(Hittable::Quad(q3));
        let q4 = Quad::new(
            Vec3 { x: min.x, y: min.y, z: min.z },
            dz,
            dy,
            material.dup(),
        );
        sides.add(Hittable::Quad(q4));
        let q5 = Quad::new(
            Vec3 { x: min.x, y: max.y, z: max.z },
            dx,
            dz.neg(),
            material.dup(),
        );
        sides.add(Hittable::Quad(q5));
        let q6 = Quad::new(
            Vec3 { x: min.x, y: min.y, z: min.z },
            dx,
            dz,
            material,
        );
        sides.add(Hittable::Quad(q6));
        Hittable::List(sides)
    }

    /// Ray/plane crossing restricted to the quad's cell; exact
    /// against `quad_cand`.
    #[verifier::rlimit(60)]
    pub fn hit<'a>(&'a self, ray: &Ray, t0: i64, t1: i64, record: &mut HitRecord<'a>) -> (res:
        bool)
        requires
            quad_wf(*self),
            wf_ray(*ray),
            -T_INF <= t0 <= T_INF,
            -T_INF <= t1 <= T_INF,
            hitrec_ok(*old(record)),
            old(record).in_ray == *ray,
        ensures
            !res ==> *final(record) == *old(record),
            res ==> elig(self.aabb, *ray, t0 as int, t1 as int, final(record).t as int),
            res ==> hitrec_ok(*final(record)) && final(record).in_ray == *ray,
            res ==> (final(record).mat matches Some(m) && *m == self.material),
            res ==> final(record).point == ray_at_spec(*ray, final(record).t as int),
            res ==> final(record).front_face == (dot_spec(ray.direction, self.normal) < 0),
            res ==> final(record).normal == crate::hittable::oriented_normal(
                ray.direction,
                self.normal,
            ),
            res ==> final(record).uv == quad_uv_spec(*self, *ray, final(record).t as int),
            res ==> 0 <= final(record).uv.x < FX_ONE && 0 <= final(record).uv.y < FX_ONE,
            match quad_cand(*self, *ray, t0 as int, t1 as int) {
                Some(t) => res && final(record).t == t,
                None => !res,
            },
    {
        proof {
            lemma_small_product(ray.direction.x as int, self.normal.x as int, 32768, 2);
            lemma_small_product(ray.direction.y as int, self.normal.y as int, 32768, 2);
            lemma_small_product(ray.direction.z as int, self.normal.z as int, 32768, 2);
        }
        let denom = ray.direction().dot(self.normal);
        proof {
            lemma_nsq_bounds(self.n);
        }
        let nsq: i128 = (self.n.x as i128) * (self.n.x as i128) + (self.n.y as i128) * (self.n.y
            as i128) + (self.n.z as i128) * (self.n.z as i128);
        if denom == 0 || nsq <= 0 {
            return false;
        }
        proof {
            lemma_small_product(self.normal.x as int, ray.origin.x as int, 2, 16384);
            lemma_small_product(self.normal.y as int, ray.origin.y as int, 2, 16384);
            lemma_small_product(self.normal.z as int, ray.origin.z as int, 2, 16384);
        }
        let num = self.d - self.normal.dot(ray.origin());
        let t_w = if denom > 0 {
            div_trunc_i128((num as i128) * (FX_ONE as i128), denom as i128)
        } else {
            let k = div_trunc_i128((num as i128) * (FX_ONE as i128), -(denom as i128));
            proof {
                crate::fixed::lemma_tdiv_bound(num as int * FX_ONE as int, -(denom as int));
            }
            -k
        };
        if !(-(MAX_WORLD as i128) <= t_w && t_w <= MAX_WORLD as i128) {
            return false;
        }
        let t = t_w as i64;
        if !elig_check(&self.aabb, ray, t, t0, t1) {
            return false;
        }
        let inter = ray.at(t);
        proof {
            crate::aabb::lemma_point_in_box(self.aabb, *ray, t);
        }
        let planar = inter.sub(self.point);
        proof {
            lemma_planar_cross_bounds(planar, self.v);
            lemma_planar_cross_bounds(self.u, planar);
        }
        let c1 = planar.cross(self.v);
        let c2 = self.u.cross(planar);
        let alpha_o = planar_coord_exec(self.n, c1, nsq);
        let beta_o = planar_coord_exec(self.n, c2, nsq);
        let (alpha, beta) = match (alpha_o, beta_o) {
            (Some(a), Some(b)) => (a, b),
            _ => {
                return false;
            },
        };
        record.t = t;
        record.point = inter;
        record.mat = Some(&self.material);
        record.set_normal(ray, &self.normal);
        record.uv = Vec2 { x: alpha, y: beta };
        true
    }

    /// The stored bounding box.
    pub fn bounding_box(&self) -> (r: AABB)
        ensures
            r == self.aabb,
    {
        self.aabb
    }
}

/// The six faces of the axis-aligned box between the componentwise
/// minimum corner `mn` and maximum corner `mx`, as a sequence of
/// quads: each entry pins one face's corner point and its two edge
/// vectors, so together they span every face of the box.
pub open spec fn box_face_spec(s: Seq<Hittable>, mn: Vec3, mx: Vec3) -> bool {
    let dx = Vec3 { x: (mx.x - mn.x) as i64, y: 0i64, z: 0i64 };
    let dy = Vec3 { x: 0i64, y: (mx.y - mn.y) as i64, z: 0i64 };
    let dz = Vec3 { x: 0i64, y: 0i64, z: (mx.z - mn.z) as i64 };
    let ndx = Vec3 { x: (mn.x - mx.x) as i64, y: 0i64, z: 0i64 };
    let ndz = Vec3 { x: 0i64, y: 0i64, z: (mn.z - mx.z) as i64 };
    &&& s.len() == 6
    &&& s[0] matches Hittable::Quad(q0) && q0.point == (Vec3 { x: mn.x, y: mn.y, z: mx.z })
        && q0.u == dx && q0.v == dy
    &&& s[1] matches Hittable::Quad(q1) && q1.point == (Vec3 { x: mx.x, y: mn.y, z: mx.z })
        && q1.u == ndz && q1.v == dy
    &&& s[2] matches Hittable::Quad(q2) && q2.point == (Vec3 { x: mx.x, y: mn.y, z: mn.z })
        && q2.u == ndx && q2.v == dy
    &&& s[3] matches Hittable::Quad(q3) && q3.point == (Vec3 { x: mn.x, y: mn.y, z: mn.z })
        && q3.u == dz && q3.v == dy
    &&& s[4] matches Hittable::Quad(q4) && q4.point == (Vec3 { x: mn.x, y: mx.y, z: mx.z })
        && q4.u == dx && q4.v == ndz
    &&& s[5] matches Hittable::Quad(q5) && q5.point == (Vec3 { x: mn.x, y: mn.y, z: mn.z })
        && q5.u == dx && q5.v == dz
}

/// The planar coordinate when it lies in the unit cell.
fn planar_coord_exec(n: Vec3, x: Vec3, nsq: i128) -> (r: Option<i64>)
    requires
        abs_int(n.x as int) <= 0x2_0000_0000_0000,
        abs_int(n.y as int) <= 0x2_0000_0000_0000,
        abs_int(n.z as int) <= 0x2_0000_0000_0000,
        abs_int(x.x as int) <= 0x10_0000_0000_0000,
        abs_int(x.y as int) <= 0x10_0000_0000_0000,
        abs_int(x.z as int) <= 0x10_0000_0000_0000,
        0 < nsq,
        nsq == n.x as int * n.x as int + n.y as int * n.y as int + n.z as int * n.z as int,
    ensures
        r matches Some(c) ==> 0 <= c < FX_ONE && c == quad_planar_coord(n, x, nsq as int),
        r is None ==> !(0 <= quad_planar_coord(n, x, nsq as int) < FX_ONE),
{
    proof {
        lemma_planar_num_bounds(n, x);
    }
    let num: i128 = (n.x as i128) * (x.x as i128) + (n.y as i128) * (x.y as i128) + (n.z as i128)
        * (x.z as i128);
    let scaled: i128 = num * (FX_ONE as i128);
    let q = div_trunc_i128(scaled, nsq);
    if 0 <= q && q < FX_ONE as i128 {
        Some(q as i64)
    } else {
        None
    }
}

proof fn lemma_nsq_bounds(n: Vec3)
    requires
        abs_int(n.x as int) <= 0x2_0000_0000_0000,
        abs_int(n.y as int) <= 0x2_0000_0000_0000,
        abs_int(n.z as int) <= 0x2_0000_0000_0000,
    ensures
        0 <= n.x as int * n.x as int <= 0x4_0000_0000_0000_0000_0000_0000,
        0 <= n.y as int * n.y as int <= 0x4_0000_0000_0000_0000_0000_0000,
        0 <= n.z as int * n.z as int <= 0x4_0000_0000_0000_0000_0000_0000,
{
    assert(0 <= n.x as int * n.x as int <= 0x4_0000_0000_0000_0000_0000_0000 && 0 <= n.y as int
        * n.y as int <= 0x4_0000_0000_0000_0000_0000_0000 && 0 <= n.z as int * n.z as int
        <= 0x4_0000_0000_0000_0000_0000_0000) by (nonlinear_arith)
        requires
            abs_int(n.x as int) <= 0x2_0000_0000_0000,
            abs_int(n.y as int) <= 0x2_0000_0000_0000,
            abs_int(n.z as int) <= 0x2_0000_0000_0000,
    ;
}

proof fn lemma_planar_cross_bounds(a: Vec3, b: Vec3)
    requires
        abs_int(a.x as int) <= 5 * MAX_WORLD,
        abs_int(a.y as int) <= 5 * MAX_WORLD,
        abs_int(a.z as int) <= 5 * MAX_WORLD,
        abs_int(b.x as int) <= 5 * MAX_WORLD,
        abs_int(b.y as int) <= 5 * MAX_WORLD,
        abs_int(b.z as int) <= 5 * MAX_WORLD,
        abs_int(a.x as int) <= MAX_WORLD || abs_int(b.x as int) <= MAX_WORLD,
        abs_int(a.y as int) <= MAX_WORLD || abs_int(b.y as int) <= MAX_WORLD,
        abs_int(a.z as int) <= MAX_WORLD || abs_int(b.z as int) <= MAX_WORLD,
        (abs_int(a.x as int) <= MAX_WORLD && abs_int(a.y as int) <= MAX_WORLD && abs_int(
        a.z as int) <= MAX_WORLD) || (abs_int(b.x as int) <= MAX_WORLD && abs_int(b.y as int)
            <= MAX_WORLD && abs_int(b.z as int) <= MAX_WORLD),
    ensures
        abs_int(cross_spec(a, b).x as int) <= 0x10_0000_0000_0000,
        abs_int(cross_spec(a, b).y as int) <= 0x10_0000_0000_0000,
        abs_int(cross_spec(a, b).z as int) <= 0x10_0000_0000_0000,
{
    if abs_int(a.x as int) <= MAX_WORLD && abs_int(a.y as int) <= MAX_WORLD && abs_int(
        a.z as int,
    ) <= MAX_WORLD {
        lemma_small_product(a.y as int, b.z as int, 4096, 20480);
        lemma_small_product(a.z as int, b.y as int, 4096, 20480);
        lemma_small_product(a.z as int, b.x as int, 4096, 20480);
        lemma_small_product(a.x as int, b.z as int, 4096, 20480);
        lemma_small_product(a.x as int, b.y as int, 4096, 20480);
        lemma_small_product(a.y as int, b.x as int, 4096, 20480);
    } else {
        lemma_small_product(a.y as int, b.z as int, 20480, 4096);
        lemma_small_product(a.z as int, b.y as int, 20480, 4096);
        lemma_small_product(a.z as int, b.x as int, 20480, 4096);
        lemma_small_product(a.x as int, b.z as int, 20480, 4096);
        lemma_small_product(a.x as int, b.y as int, 20480, 4096);
        lemma_small_product(a.y as int, b.x as int, 20480, 4096);
    }
}

proof fn lemma_planar_num_bounds(n: Vec3, x: Vec3)
    requires
        abs_int(n.x as int) <= 0x2_0000_0000_0000,
        abs_int(n.y as int) <= 0x2_0000_0000_0000,
        abs_int(n.z as int) <= 0x2_0000_0000_0000,
        abs_int(x.x as int) <= 0x10_0000_0000_0000,
        abs_int(x.y as int) <= 0x10_0000_0000_0000,
        abs_int(x.z as int) <= 0x10_0000_0000_0000,
    ensures
        abs_int(n.x as int * x.x as int) <= 0x20_0000_0000_0000_0000_0000_0000,
        abs_int(n.y as int * x.y as int) <= 0x20_0000_0000_0000_0000_0000_0000,
        abs_int(n.z as int * x.z as int) <= 0x20_0000_0000_0000_0000_0000_0000,
        abs_int(
            (n.x as int * x.x as int + n.y as int * x.y as int + n.z as int * x.z as int) * (
            FX_ONE as int),
        ) < 0x8000_0000_0000_0000_0000_0000_0000_0000,
{
    assert(abs_int(n.x as int * x.x as int) <= 0x20_0000_0000_0000_0000_0000_0000 && abs_int(
        n.y as int * x.y as int,
    ) <= 0x20_0000_0000_0000_0000_0000_0000 && abs_int(n.z as int * x.z as int)
        <= 0x20_0000_0000_0000_0000_0000_0000) by (nonlinear_arith)
        requires
            abs_int(n.x as int) <= 0x2_0000_0000_0000,
            abs_int(n.y as int) <= 0x2_0000_0000_0000,
            abs_int(n.z as int) <= 0x2_0000_0000_0000,
            abs_int(x.x as int) <= 0x10_0000_0000_0000,
            abs_int(x.y as int) <= 0x10_0000_0000_0000,
            abs_int(x.z as int) <= 0x10_0000_0000_0000,
    ;
}

} // verus!
