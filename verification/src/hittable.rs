//! Hit records and the closed family of hittable shapes.

use vstd::prelude::*;

use crate::aabb::{
    box_contains, combine_spec, norm_iv, pad_iv, shifted_spec, wf_aabb, Interval, AABB, AABB_PAD,
};
use crate::bvh::{bvh_cand, bvh_det, bvh_wf, BVHNode};
use crate::constant_medium::ConstantMedium;
use crate::fixed::{abs_int, fx_mul, FX_ONE, MAX_WORLD, T_INF};
use crate::material::{lemma_small_product, wf_material, Material};
use crate::quad::{quad_cand, quad_wf, Quad};
use crate::ray::{wf_ray, Ray};
use crate::rng::RandomSource;
use crate::sphere::{sphere_cand, sphere_wf, Sphere};
use crate::vector::{dot_spec, vec_bounded, Vec2, Vec3};

verus! {

broadcast use vstd::std_specs::vec::group_vec_axioms, vstd::seq::group_seq_axioms;

/// The result of a successful intersection: hit distance, world
/// point, oriented surface normal, the material at the hit (a shared
/// reference into the scene), and surface coordinates.
#[derive(Clone, Copy)]
pub struct HitRecord<'a> {
    pub in_ray: Ray,
    pub point: Vec3,
    pub normal: Vec3,
    pub t: i64,
    pub front_face: bool,
    pub mat: Option<&'a Material>,
    pub uv: Vec2,
}

/// Bounds every populated record keeps: the hit point stays near the
/// scene, the normal has roughly unit magnitude, the stored ray is
/// well formed.
pub open spec fn hitrec_ok(rec: HitRecord) -> bool {
    &&& abs_int(rec.point.x as int) <= 4 * MAX_WORLD
    &&& abs_int(rec.point.y as int) <= 4 * MAX_WORLD
    &&& abs_int(rec.point.z as int) <= 4 * MAX_WORLD
    &&& abs_int(rec.normal.x as int) <= 2 * FX_ONE
    &&& abs_int(rec.normal.y as int) <= 2 * FX_ONE
    &&& abs_int(rec.normal.z as int) <= 2 * FX_ONE
    &&& wf_ray(rec.in_ray)
}

/// A hit parameter is eligible to be reported: a world-bounded whole
/// fixed-point value strictly inside the query range whose ray point
/// is strictly inside the shape's own box.
pub open spec fn elig(b: AABB, r: Ray, t0: int, t1: int, t: int) -> bool {
    &&& -MAX_WORLD <= t <= MAX_WORLD
    &&& t0 < t && t < t1
    &&& crate::aabb::point_inside(b, r, t, FX_ONE as int)
}

/// The geometric outward normal oriented against the direction `d`:
/// kept when it already faces the ray, negated otherwise.
pub open spec fn oriented_normal(d: Vec3, outward: Vec3) -> Vec3 {
    if dot_spec(d, outward) < 0 {
        outward
    } else {
        Vec3 { x: (-outward.x) as i64, y: (-outward.y) as i64, z: (-outward.z) as i64 }
    }
}

/// Executable eligibility test, exact against `elig`.
pub fn elig_check(b: &AABB, ray: &Ray, t: i64, t0: i64, t1: i64) -> (r: bool)
    requires
        crate::aabb::wf_aabb(*b),
        wf_ray(*ray),
    ensures
        r == elig(*b, *ray, t0 as int, t1 as int, t as int),
{
    if t < -MAX_WORLD || t > MAX_WORLD {
        return false;
    }
    crate::aabb::contains_at(b, ray, t, t0, t1)
}

impl<'a> HitRecord<'a> {
    /// A fresh record for one cast of `in_ray`, not yet populated.
    pub fn new(in_ray: &Ray) -> (r: HitRecord<'a>)
        ensures
            r.in_ray == *in_ray,
            r.point == (Vec3 { x: 0i64, y: 0i64, z: 0i64 }),
            r.normal == (Vec3 { x: 0i64, y: 0i64, z: 0i64 }),
            r.t == 0,
            r.front_face == false,
            r.mat is None,
            r.uv == (Vec2 { x: 0i64, y: 0i64 }),
    {
        HitRecord {
            in_ray: *in_ray,
            point: Vec3 { x: 0, y: 0, z: 0 },
            normal: Vec3 { x: 0, y: 0, z: 0 },
            t: 0,
            front_face: false,
            mat: None,
            uv: Vec2 { x: 0, y: 0 },
        }
    }

    /// Record the outward normal oriented against the incoming ray:
    /// `front_face` says whether the geometric normal already faced
    /// the ray.
    pub fn set_normal(&mut self, ray: &Ray, outward_normal: &Vec3)
        requires
            vec_bounded(old(self).normal),
            wf_ray(*ray),
            vec_bounded(*outward_normal),
        ensures
            final(self).front_face == (dot_spec(ray.direction, *outward_normal) < 0),
            final(self).normal == oriented_normal(ray.direction, *outward_normal),
            final(self).in_ray == old(self).in_ray,
            final(self).point == old(self).point,
            final(self).t == old(self).t,
            final(self).mat == old(self).mat,
            final(self).uv == old(self).uv,
    {
        let d = ray.direction().dot(*outward_normal);
        self.front_face = d < 0;
        self.normal = if self.front_face {
            *outward_normal
        } else {
            outward_normal.neg()
        };
    }
}

/// A flat union of hittables with the combined box of its members.
pub struct HittableList {
    pub objects: Vec<Hittable>,
    pub aabb: AABB,
}

/// A hittable moved by a constant offset.
pub struct Translate {
    pub object: Box<Hittable>,
    pub offset: Vec3,
    pub aabb: AABB,
}

/// A hittable rotated about the world y axis.
pub struct RotateY {
    pub object: Box<Hittable>,
    pub sin_theta: i64,
    pub cos_theta: i64,
    pub aabb: AABB,
}

/// The closed family of things a ray can intersect.
pub enum Hittable {
    Sphere(Sphere),
    Quad(Quad),
    List(HittableList),
    Bvh(Box<BVHNode>),
    Translated(Translate),
    RotatedY(RotateY),
    Medium(ConstantMedium),
}

/// The bounding box of a hittable.
pub open spec fn h_bbox(h: Hittable) -> AABB
    decreases h,
{
    match h {
        Hittable::Sphere(s) => s.aabb,
        Hittable::Quad(q) => q.aabb,
        Hittable::List(l) => l.aabb,
        Hittable::Bvh(n) => n.aabb,
        Hittable::Translated(t) => t.aabb,
        Hittable::RotatedY(r) => r.aabb,
        Hittable::Medium(m) => h_bbox(*m.boundary),
    }
}

/// Every coordinate of the box is within twice the world bound, so
/// one translation keeps it well formed.
pub open spec fn box_small(b: AABB) -> bool {
    &&& abs_int(b.x.lo as int) <= 2 * MAX_WORLD && abs_int(b.x.hi as int) <= 2 * MAX_WORLD
    &&& abs_int(b.y.lo as int) <= 2 * MAX_WORLD && abs_int(b.y.hi as int) <= 2 * MAX_WORLD
    &&& abs_int(b.z.lo as int) <= 2 * MAX_WORLD && abs_int(b.z.hi as int) <= 2 * MAX_WORLD
}

/// Structural well-formedness of the whole shape tree: geometry is
/// bounded, stored boxes are well formed, a list's box contains its
/// members' boxes, and a tree node's box is exactly the union of its
/// children's boxes.
pub open spec fn h_wf(h: Hittable) -> bool
    decreases h,
{
    match h {
        Hittable::Sphere(s) => sphere_wf(s),
        Hittable::Quad(q) => quad_wf(q),
        Hittable::List(l) => wf_aabb(l.aabb) && list_wf(
            l.objects@,
            l.objects@.len() as int,
            l.aabb,
        ),
        Hittable::Bvh(n) => bvh_wf(*n),
        Hittable::Translated(t) => {
            &&& h_wf(*t.object)
            &&& crate::vector::in_world_vec(t.offset)
            &&& box_small(h_bbox(*t.object))
            &&& t.aabb == shifted_spec(h_bbox(*t.object), t.offset)
            &&& wf_aabb(t.aabb)
        },
        Hittable::RotatedY(r) => {
            &&& h_wf(*r.object)
            &&& abs_int(r.sin_theta as int) <= FX_ONE
            &&& abs_int(r.cos_theta as int) <= FX_ONE
            &&& r.aabb == rotated_box_spec(
                r.sin_theta as int,
                r.cos_theta as int,
                h_bbox(*r.object),
            )
            &&& wf_aabb(r.aabb)
        },
        Hittable::Medium(m) => {
            &&& h_wf(*m.boundary)
            &&& 1 <= m.density <= MAX_WORLD
            &&& wf_material(m.phase_function)
        },
    }
}

/// The first `i` members of a list are well formed and contained in
/// the outer box.
pub open spec fn list_wf(v: Seq<Hittable>, i: int, outer: AABB) -> bool
    decreases v, i,
{
    if i <= 0 || i > v.len() {
        true
    } else {
        h_wf(v[i - 1]) && box_contains(outer, h_bbox(v[i - 1])) && list_wf(v, i - 1, outer)
    }
}

/// The hit result of the shape is a pure function of the ray and
/// range (no participating media anywhere inside).
pub open spec fn h_det(h: Hittable) -> bool
    decreases h,
{
    match h {
        Hittable::Sphere(_) => true,
        Hittable::Quad(_) => true,
        Hittable::List(l) => list_det(l.objects@, l.objects@.len() as int),
        Hittable::Bvh(n) => bvh_det(*n),
        Hittable::Translated(t) => h_det(*t.object),
        Hittable::RotatedY(r) => h_det(*r.object),
        Hittable::Medium(_) => false,
    }
}

/// The first `i` members are deterministic.
pub open spec fn list_det(v: Seq<Hittable>, i: int) -> bool
    decreases v, i,
{
    if i <= 0 || i > v.len() {
        true
    } else {
        h_det(v[i - 1]) && list_det(v, i - 1)
    }
}

/// The translated ray stays within the bounds the intersection
/// arithmetic needs.
pub open spec fn offset_ok(r: Ray, off: Vec3) -> bool {
    &&& abs_int(r.origin.x - off.x) <= 4 * MAX_WORLD
    &&& abs_int(r.origin.y - off.y) <= 4 * MAX_WORLD
    &&& abs_int(r.origin.z - off.z) <= 4 * MAX_WORLD
}

/// The ray as seen from the translated object's own frame.
pub open spec fn offset_ray_spec(r: Ray, off: Vec3) -> Ray {
    Ray {
        origin: Vec3 {
            x: (r.origin.x - off.x) as i64,
            y: (r.origin.y - off.y) as i64,
            z: (r.origin.z - off.z) as i64,
        },
        direction: r.direction,
        time: r.time,
    }
}

/// Degrees converted to fixed-point radians, as the constructors
/// compute it.
pub open spec fn radians_spec(angle: int) -> int {
    fx_mul(angle, crate::fixed::PI_FX as int) / 180
}

/// The rotation sine a y-rotation stores for an angle in degrees.
pub open spec fn rot_sin_spec(angle: int) -> int {
    crate::fixed::sin_fx_spec(radians_spec(angle))
}

/// The rotation cosine a y-rotation stores for an angle in degrees.
pub open spec fn rot_cos_spec(angle: int) -> int {
    crate::fixed::sin_fx_spec(radians_spec(angle) + crate::fixed::HALF_PI_FX)
}

/// Corner `i` of a box (the bits of `i` select the low or high end
/// per axis), rotated about the y axis into the world frame and
/// clamped, as the y-rotation constructor sweeps it.
pub open spec fn rot_corner_spec(sin_t: int, cos_t: int, b: AABB, i: int) -> Vec3 {
    let x: int = if i % 2 == 0 {
        b.x.lo as int
    } else {
        b.x.hi as int
    };
    let y: int = if (i / 2) % 2 == 0 {
        b.y.lo as int
    } else {
        b.y.hi as int
    };
    let z: int = if (i / 4) % 2 == 0 {
        b.z.lo as int
    } else {
        b.z.hi as int
    };
    Vec3 {
        x: crate::fixed::clamp_spec(
            fx_mul(cos_t, x) + fx_mul(sin_t, z),
            -2 * MAX_WORLD,
            2 * MAX_WORLD,
        ) as i64,
        y: y as i64,
        z: crate::fixed::clamp_spec(
            -fx_mul(sin_t, x) + fx_mul(cos_t, z),
            -2 * MAX_WORLD,
            2 * MAX_WORLD,
        ) as i64,
    }
}

/// Componentwise minimum of two vectors.
pub open spec fn vec_min_spec(a: Vec3, b: Vec3) -> Vec3 {
    Vec3 {
        x: if a.x <= b.x {
            a.x
        } else {
            b.x
        },
        y: if a.y <= b.y {
            a.y
        } else {
            b.y
        },
        z: if a.z <= b.z {
            a.z
        } else {
            b.z
        },
    }
}

/// Componentwise maximum of two vectors.
pub open spec fn vec_max_spec(a: Vec3, b: Vec3) -> Vec3 {
    Vec3 {
        x: if a.x >= b.x {
            a.x
        } else {
            b.x
        },
        y: if a.y >= b.y {
            a.y
        } else {
            b.y
        },
        z: if a.z >= b.z {
            a.z
        } else {
            b.z
        },
    }
}

/// The running componentwise minimum over the first `i` rotated
/// corners.
pub open spec fn rot_min_fold(sin_t: int, cos_t: int, b: AABB, i: int) -> Vec3
    decreases i,
{
    if i <= 0 {
        Vec3 { x: (2 * MAX_WORLD) as i64, y: (2 * MAX_WORLD) as i64, z: (2 * MAX_WORLD) as i64 }
    } else {
        vec_min_spec(rot_min_fold(sin_t, cos_t, b, i - 1), rot_corner_spec(sin_t, cos_t, b, i - 1))
    }
}

/// The running componentwise maximum over the first `i` rotated
/// corners.
pub open spec fn rot_max_fold(sin_t: int, cos_t: int, b: AABB, i: int) -> Vec3
    decreases i,
{
    if i <= 0 {
        Vec3 {
            x: (-2 * MAX_WORLD) as i64,
            y: (-2 * MAX_WORLD) as i64,
            z: (-2 * MAX_WORLD) as i64,
        }
    } else {
        vec_max_spec(rot_max_fold(sin_t, cos_t, b, i - 1), rot_corner_spec(sin_t, cos_t, b, i - 1))
    }
}

/// The box a y rotation stores: the componentwise min/max sweep over
/// all eight rotated corners of the inner box, grown by the pad and
/// normalized.
pub open spec fn rotated_box_spec(sin_t: int, cos_t: int, b: AABB) -> AABB {
    let mn = rot_min_fold(sin_t, cos_t, b, 8);
    let mx = rot_max_fold(sin_t, cos_t, b, 8);
    AABB {
        x: pad_iv(norm_iv(Interval { lo: (mn.x - AABB_PAD) as i64, hi: (mx.x + AABB_PAD) as i64 })),
        y: pad_iv(norm_iv(Interval { lo: (mn.y - AABB_PAD) as i64, hi: (mx.y + AABB_PAD) as i64 })),
        z: pad_iv(norm_iv(Interval { lo: (mn.z - AABB_PAD) as i64, hi: (mx.z + AABB_PAD) as i64 })),
    }
}

/// One point rotated into the object frame of a y rotation.
pub open spec fn rot_in_spec(sin_t: int, cos_t: int, p: Vec3) -> Vec3 {
    Vec3 {
        x: (fx_mul(cos_t, p.x as int) - fx_mul(sin_t, p.z as int)) as i64,
        y: p.y,
        z: (fx_mul(sin_t, p.x as int) + fx_mul(cos_t, p.z as int)) as i64,
    }
}

/// The ray as seen from the rotated object's own frame.
pub open spec fn rotated_ray_spec(r: Ray, sin_t: int, cos_t: int) -> Ray {
    Ray {
        origin: rot_in_spec(sin_t, cos_t, r.origin),
        direction: rot_in_spec(sin_t, cos_t, r.direction),
        time: r.time,
    }
}

/// One point rotated back out of the object frame of a y rotation
/// (the inverse, transposed rotation), clamped into the record's
/// point range; the y component passes through unchanged.
pub open spec fn rot_out_spec(sin_t: int, cos_t: int, p: Vec3) -> Vec3 {
    Vec3 {
        x: crate::fixed::clamp_spec(
            fx_mul(cos_t, p.x as int) + fx_mul(sin_t, p.z as int),
            -4 * MAX_WORLD,
            4 * MAX_WORLD,
        ) as i64,
        y: p.y,
        z: crate::fixed::clamp_spec(
            -fx_mul(sin_t, p.x as int) + fx_mul(cos_t, p.z as int),
            -4 * MAX_WORLD,
            4 * MAX_WORLD,
        ) as i64,
    }
}

/// One normal rotated back out of the object frame of a y rotation
/// (the inverse, transposed rotation), clamped into the record's
/// normal range; the y component passes through unchanged.
pub open spec fn rot_out_normal_spec(sin_t: int, cos_t: int, n: Vec3) -> Vec3 {
    Vec3 {
        x: crate::fixed::clamp_spec(
            fx_mul(cos_t, n.x as int) + fx_mul(sin_t, n.z as int),
            -2 * FX_ONE,
            2 * FX_ONE,
        ) as i64,
        y: n.y,
        z: crate::fixed::clamp_spec(
            -fx_mul(sin_t, n.x as int) + fx_mul(cos_t, n.z as int),
            -2 * FX_ONE,
            2 * FX_ONE,
        ) as i64,
    }
}

/// The rotated ray stays within bounds.
pub open spec fn rot_ok(r: Ray, sin_t: int, cos_t: int) -> bool {
    let rr = rotated_ray_spec(r, sin_t, cos_t);
    &&& abs_int(rr.origin.x as int) <= 4 * MAX_WORLD
    &&& abs_int(rr.origin.y as int) <= 4 * MAX_WORLD
    &&& abs_int(rr.origin.z as int) <= 4 * MAX_WORLD
    &&& abs_int(rr.direction.x as int) <= 8 * MAX_WORLD
    &&& abs_int(rr.direction.y as int) <= 8 * MAX_WORLD
    &&& abs_int(rr.direction.z as int) <= 8 * MAX_WORLD
}

/// The oriented normal a primitive reports at hit parameter `t`: the
/// sphere's scaled center offset or the quad's plane normal, flipped
/// against the ray.  Meaningful only for primitives.
pub open spec fn prim_normal(h: Hittable, r: Ray, t: int) -> Vec3 {
    match h {
        Hittable::Sphere(s) => oriented_normal(
            r.direction,
            crate::sphere::sphere_outward_spec(s, r, t),
        ),
        Hittable::Quad(q) => oriented_normal(r.direction, q.normal),
        _ => vstd::pervasive::arbitrary(),
    }
}

/// The surface coordinates a primitive reports at hit parameter `t`.
/// Meaningful only for primitives.
pub open spec fn prim_uv(h: Hittable, r: Ray, t: int) -> Vec2 {
    match h {
        Hittable::Sphere(s) => crate::sphere::sphere_uv_spec(
            crate::sphere::sphere_outward_spec(s, r, t),
        ),
        Hittable::Quad(q) => crate::quad::quad_uv_spec(q, r, t),
        _ => vstd::pervasive::arbitrary(),
    }
}

/// The material of a primitive.  Meaningful only for primitives.
pub open spec fn prim_material(h: Hittable) -> Material {
    match h {
        Hittable::Sphere(s) => s.material,
        Hittable::Quad(q) => q.material,
        _ => vstd::pervasive::arbitrary(),
    }
}

/// The record was filled by this primitive: it carries the
/// primitive's material, its oriented normal at the reported
/// parameter, and the ray point there.
pub open spec fn prim_fills(h: Hittable, r: Ray, rec: HitRecord) -> bool {
    &&& rec.point == crate::ray::ray_at_spec(r, rec.t as int)
    &&& rec.normal == prim_normal(h, r, rec.t as int)
    &&& rec.uv == prim_uv(h, r, rec.t as int)
    &&& (rec.mat matches Some(m) && *m == prim_material(h))
}

/// Some member of the collection accounts for the record, and that
/// member's own candidate over the full query range is exactly the
/// reported parameter: the record carries the nearest primitive's
/// fields.
pub open spec fn record_from_prim(
    s: Seq<Hittable>,
    r: Ray,
    t0: int,
    t1: int,
    rec: HitRecord,
) -> bool {
    exists|i: int|
        0 <= i < s.len() && #[trigger] prim_fills(s[i], r, rec) && h_cand(s[i], r, t0, t1)
            == Some(rec.t as int)
}

/// The primitive members a composite directly traces: the members of
/// a flat list, the leaves of a hierarchy, or a primitive by itself.
pub open spec fn h_prim_members(h: Hittable) -> Seq<Hittable> {
    match h {
        Hittable::Sphere(_) => seq![h],
        Hittable::Quad(_) => seq![h],
        Hittable::List(l) => l.objects@,
        Hittable::Bvh(n) => crate::bvh::bvh_leaves(*n),
        _ => Seq::empty(),
    }
}

/// The shape is a primitive collection: a primitive, a flat list of
/// primitives, or a hierarchy over primitives.
pub open spec fn h_all_prim(h: Hittable) -> bool {
    match h {
        Hittable::Sphere(_) => true,
        Hittable::Quad(_) => true,
        Hittable::List(l) => crate::bvh::all_prim(l.objects@),
        Hittable::Bvh(n) => crate::bvh::node_prim(*n),
        _ => false,
    }
}

/// The hit parameter a deterministic shape reports for a ray and
/// range, if any.
pub open spec fn h_cand(h: Hittable, r: Ray, t0: int, t1: int) -> Option<int>
    decreases h,
{
    match h {
        Hittable::Sphere(s) => sphere_cand(s, r, t0, t1),
        Hittable::Quad(q) => quad_cand(q, r, t0, t1),
        Hittable::List(l) => list_cand(l.objects@, l.objects@.len() as int, r, t0, t1),
        Hittable::Bvh(n) => bvh_cand(*n, r, t0, t1),
        Hittable::Translated(t) => {
            if !offset_ok(r, t.offset) {
                None
            } else {
                match h_cand(*t.object, offset_ray_spec(r, t.offset), t0, t1) {
                    Some(tt) => if elig(t.aabb, r, t0, t1, tt) {
                        Some(tt)
                    } else {
                        None
                    },
                    None => None,
                }
            }
        },
        Hittable::RotatedY(ry) => {
            if !rot_ok(r, ry.sin_theta as int, ry.cos_theta as int) {
                None
            } else {
                match h_cand(
                    *ry.object,
                    rotated_ray_spec(r, ry.sin_theta as int, ry.cos_theta as int),
                    t0,
                    t1,
                ) {
                    Some(tt) => if elig(ry.aabb, r, t0, t1, tt) {
                        Some(tt)
                    } else {
                        None
                    },
                    None => None,
                }
            }
        },
        Hittable::Medium(_) => None,
    }
}

/// The folded nearest hit of the first `i` members, each probed with
/// the range shrunk to the best hit so far (as the traversal does).
pub open spec fn list_cand(v: Seq<Hittable>, i: int, r: Ray, t0: int, t1: int) -> Option<int>
    decreases v, i,
{
    if i <= 0 || i > v.len() {
        None
    } else {
        let prev = list_cand(v, i - 1, r, t0, t1);
        let upper = match prev {
            Some(t) => t,
            None => t1,
        };
        match h_cand(v[i - 1], r, t0, upper) {
            Some(t) => Some(t),
            None => prev,
        }
    }
}

/// Index access into a well-formed list prefix.
pub proof fn lemma_list_wf_index(v: Seq<Hittable>, i: int, outer: AABB, j: int)
    requires
        list_wf(v, i, outer),
        0 <= j < i,
        i <= v.len(),
    ensures
        h_wf(v[j]),
        box_contains(outer, h_bbox(v[j])),
    decreases i,
{
    if j == i - 1 {
    } else {
        lemma_list_wf_index(v, i - 1, outer, j);
    }
}

/// Index access into a deterministic list prefix.
pub proof fn lemma_list_det_index(v: Seq<Hittable>, i: int, j: int)
    requires
        list_det(v, i),
        0 <= j < i,
        i <= v.len(),
    ensures
        h_det(v[j]),
    decreases i,
{
    if j == i - 1 {
    } else {
        lemma_list_det_index(v, i - 1, j);
    }
}

/// Every well-formed hittable carries a well-formed box.
pub proof fn lemma_h_bbox_wf(h: Hittable)
    requires
        h_wf(h),
    ensures
        wf_aabb(h_bbox(h)),
    decreases h,
{
    match h {
        Hittable::Medium(m) => {
            assert(h_wf(*m.boundary));
            lemma_h_bbox_wf(*m.boundary);
            assert(wf_aabb(h_bbox(*m.boundary)));
            assert(h_bbox(h) == h_bbox(*m.boundary));
        },
        Hittable::Sphere(s) => {
            assert(wf_aabb(s.aabb));
        },
        Hittable::Quad(q) => {
            assert(wf_aabb(q.aabb));
        },
        Hittable::List(l) => {
            assert(wf_aabb(l.aabb));
        },
        Hittable::Bvh(n) => {
            assert(bvh_wf(*n));
            assert(wf_aabb((*n).aabb));
            assert(h_bbox(h) == (*n).aabb);
        },
        Hittable::Translated(t) => {
            assert(wf_aabb(t.aabb));
        },
        Hittable::RotatedY(r) => {
            assert(wf_aabb(r.aabb));
        },
    }
}

impl HittableList {
    /// An empty union: no members, a degenerate box at the origin.
    pub fn new() -> (r: HittableList)
        ensures
            r.objects.len() == 0,
            r.aabb == (AABB {
                x: Interval { lo: 0i64, hi: 0i64 },
                y: Interval { lo: 0i64, hi: 0i64 },
                z: Interval { lo: 0i64, hi: 0i64 },
            }),
            h_wf(Hittable::List(r)),
            h_det(Hittable::List(r)),
    {
        let objects: Vec<Hittable> = Vec::new();
        let aabb = AABB {
            x: Interval { lo: 0, hi: 0 },
            y: Interval { lo: 0, hi: 0 },
            z: Interval { lo: 0, hi: 0 },
        };
        proof {
            assert(list_wf(objects@, 0, aabb));
            assert(list_det(objects@, 0));
        }
        HittableList { objects, aabb }
    }

    /// Add a member; the list's box grows to the union.
    pub fn add(&mut self, object: Hittable)
        requires
            h_wf(Hittable::List(*old(self))),
            h_wf(object),
        ensures
            final(self).objects@ == old(self).objects@.push(object),
            final(self).aabb == combine_spec(old(self).aabb, h_bbox(object)),
            h_wf(Hittable::List(*final(self))),
            h_det(Hittable::List(*old(self))) && h_det(object) ==> h_det(
                Hittable::List(*final(self)),
            ),
    {
        let object_aabb = object.bounding_box();
        let new_aabb = AABB::combine_bounds(&self.aabb, &object_aabb);
        proof {
            lemma_h_bbox_wf(object);
            crate::aabb::lemma_combine_tight(self.aabb, h_bbox(object));
            lemma_list_wf_grow(
                self.objects@,
                self.objects@.len() as int,
                self.aabb,
                new_aabb,
            );
            if h_det(Hittable::List(*self)) && h_det(object) {
                lemma_list_det_push(self.objects@, self.objects@.len() as int, object);
            }
            lemma_list_wf_push(
                self.objects@,
                self.objects@.len() as int,
                new_aabb,
                object,
            );
        }
        self.objects.push(object);
        self.aabb = new_aabb;
    }

    /// The members, by reference.
    pub fn objects(&self) -> (r: &Vec<Hittable>)
        ensures
            r == self.objects,
    {
        &self.objects
    }
}

proof fn lemma_list_wf_grow(v: Seq<Hittable>, i: int, outer: AABB, wider: AABB)
    requires
        list_wf(v, i, outer),
        box_contains(wider, outer),
    ensures
        list_wf(v, i, wider),
    decreases i,
{
    if i <= 0 || i > v.len() {
    } else {
        lemma_list_wf_grow(v, i - 1, outer, wider);
    }
}

proof fn lemma_list_wf_push(v: Seq<Hittable>, i: int, outer: AABB, object: Hittable)
    requires
        i == v.len(),
        list_wf(v, i, outer),
        h_wf(object),
        box_contains(outer, h_bbox(object)),
    ensures
        list_wf(v.push(object), i + 1, outer),
    decreases i,
{
    lemma_list_wf_frame(v, v.push(object), i, outer);
    assert(v.push(object)[i] == object);
    assert(v.push(object).len() == v.len() + 1);
}

/// Two sequences that agree on a prefix agree on its
/// well-formedness.
proof fn lemma_list_wf_frame(a: Seq<Hittable>, b: Seq<Hittable>, i: int, outer: AABB)
    requires
        list_wf(a, i, outer),
        i <= a.len(),
        i <= b.len(),
        forall|j: int| 0 <= j < i ==> a[j] == b[j],
    ensures
        list_wf(b, i, outer),
    decreases i,
{
    if i <= 0 {
    } else {
        lemma_list_wf_frame(a, b, i - 1, outer);
    }
}

proof fn lemma_list_det_push(v: Seq<Hittable>, i: int, object: Hittable)
    requires
        i == v.len(),
        list_det(v, i),
        h_det(object),
    ensures
        list_det(v.push(object), i + 1),
    decreases i,
{
    lemma_list_det_frame(v, v.push(object), i);
    assert(v.push(object)[i] == object);
    assert(v.push(object).len() == v.len() + 1);
}

proof fn lemma_list_det_frame(a: Seq<Hittable>, b: Seq<Hittable>, i: int)
    requires
        list_det(a, i),
        i <= a.len(),
        i <= b.len(),
        forall|j: int| 0 <= j < i ==> a[j] == b[j],
    ensures
        list_det(b, i),
    decreases i,
{
    if i <= 0 {
    } else {
        lemma_list_det_frame(a, b, i - 1);
    }
}

impl Translate {
    /// Wrap a hittable shifted by `offset`; the stored box is the
    /// inner box shifted once.
    pub fn new(object: Box<Hittable>, offset: Vec3) -> (r: Translate)
        requires
            h_wf(*object),
            crate::vector::in_world_vec(offset),
            box_small(h_bbox(*object)),
        ensures
            r.object == object,
            r.offset == offset,
            h_wf(Hittable::Translated(r)),
            h_det(*object) ==> h_det(Hittable::Translated(r)),
    {
        proof {
            lemma_h_bbox_wf(*object);
        }
        let inner_box = object.bounding_box();
        let aabb = inner_box.shifted(&offset);
        Translate { object, offset, aabb }
    }
}

impl RotateY {
    /// Wrap a hittable rotated about the y axis by `angle` degrees;
    /// the stored box covers the rotated corners of the inner box.
    pub fn new(object: Box<Hittable>, angle: i64) -> (r: RotateY)
        requires
            h_wf(*object),
            -0x5a0 * FX_ONE <= angle <= 0x5a0 * FX_ONE,
            abs_int(h_bbox(*object).x.lo as int) <= MAX_WORLD,
            abs_int(h_bbox(*object).x.hi as int) <= MAX_WORLD,
            abs_int(h_bbox(*object).y.lo as int) <= MAX_WORLD,
            abs_int(h_bbox(*object).y.hi as int) <= MAX_WORLD,
            abs_int(h_bbox(*object).z.lo as int) <= MAX_WORLD,
            abs_int(h_bbox(*object).z.hi as int) <= MAX_WORLD,
        ensures
            r.object == object,
            r.sin_theta == rot_sin_spec(angle as int),
            r.cos_theta == rot_cos_spec(angle as int),
            r.aabb == rotated_box_spec(
                rot_sin_spec(angle as int),
                rot_cos_spec(angle as int),
                h_bbox(*object),
            ),
            h_wf(Hittable::RotatedY(r)),
            h_det(*object) ==> h_det(Hittable::RotatedY(r)),
    {
        proof {
            lemma_small_product(angle as int, crate::fixed::PI_FX as int, 1440, 4);
        }
        let radians = crate::fixed::floor_div(
            crate::fixed::mul_fx(angle, crate::fixed::PI_FX),
            180,
        );
        proof {
            crate::fixed::lemma_tdiv_bound(angle as int * crate::fixed::PI_FX as int, FX_ONE as int);
            vstd::arithmetic::div_mod::lemma_div_is_ordered(
                crate::fixed::fx_mul(angle as int, crate::fixed::PI_FX as int),
                1440 * 4 * FX_ONE,
                180,
            );
            vstd::arithmetic::div_mod::lemma_div_is_ordered(
                -(1440 * 4 * FX_ONE),
                crate::fixed::fx_mul(angle as int, crate::fixed::PI_FX as int),
                180,
            );
        }
        let sin_theta = crate::fixed::sin_fx(radians);
        let cos_theta = crate::fixed::cos_fx(radians);
        proof {
            lemma_h_bbox_wf(*object);
        }
        let inner_box = object.bounding_box();
        let mut min_v = Vec3 { x: 2 * MAX_WORLD, y: 2 * MAX_WORLD, z: 2 * MAX_WORLD };
        let mut max_v = Vec3 { x: -2 * MAX_WORLD, y: -2 * MAX_WORLD, z: -2 * MAX_WORLD };
        let mut i: usize = 0;
        while i < 8
            invariant
                i <= 8,
                min_v == rot_min_fold(sin_theta as int, cos_theta as int, inner_box, i as int),
                max_v == rot_max_fold(sin_theta as int, cos_theta as int, inner_box, i as int),
                abs_int(min_v.x as int) <= 2 * MAX_WORLD,
                abs_int(min_v.y as int) <= 2 * MAX_WORLD,
                abs_int(min_v.z as int) <= 2 * MAX_WORLD,
                abs_int(max_v.x as int) <= 2 * MAX_WORLD,
                abs_int(max_v.y as int) <= 2 * MAX_WORLD,
                abs_int(max_v.z as int) <= 2 * MAX_WORLD,
                abs_int(inner_box.x.lo as int) <= MAX_WORLD,
                abs_int(inner_box.x.hi as int) <= MAX_WORLD,
                abs_int(inner_box.y.lo as int) <= MAX_WORLD,
                abs_int(inner_box.y.hi as int) <= MAX_WORLD,
                abs_int(inner_box.z.lo as int) <= MAX_WORLD,
                abs_int(inner_box.z.hi as int) <= MAX_WORLD,
                abs_int(sin_theta as int) <= FX_ONE,
                abs_int(cos_theta as int) <= FX_ONE,
            decreases 8 - i,
        {
            let x = if i % 2 == 0 {
                inner_box.x.lo
            } else {
                inner_box.x.hi
            };
            let y = if (i / 2) % 2 == 0 {
                inner_box.y.lo
            } else {
                inner_box.y.hi
            };
            let z = if (i / 4) % 2 == 0 {
                inner_box.z.lo
            } else {
                inner_box.z.hi
            };
            proof {
                lemma_small_product(cos_theta as int, x as int, 1, 4096);
                lemma_small_product(sin_theta as int, z as int, 1, 4096);
                lemma_small_product(sin_theta as int, x as int, 1, 4096);
                lemma_small_product(cos_theta as int, z as int, 1, 4096);
            }
            let new_x = crate::fixed::mul_fx(cos_theta, x) + crate::fixed::mul_fx(sin_theta, z);
            let new_z = -crate::fixed::mul_fx(sin_theta, x) + crate::fixed::mul_fx(cos_theta, z);
            let test_vec = Vec3 {
                x: crate::fixed::fx_clamp(new_x, -2 * MAX_WORLD, 2 * MAX_WORLD),
                y,
                z: crate::fixed::fx_clamp(new_z, -2 * MAX_WORLD, 2 * MAX_WORLD),
            };
            proof {
                assert(test_vec == rot_corner_spec(
                    sin_theta as int,
                    cos_theta as int,
                    inner_box,
                    i as int,
                ));
            }
            min_v = crate::vector::min_vec3(&min_v, &test_vec);
            max_v = crate::vector::max_vec3(&max_v, &test_vec);
            i = i + 1;
        }
        let grown_min = Vec3 {
            x: min_v.x - crate::aabb::AABB_PAD,
            y: min_v.y - crate::aabb::AABB_PAD,
            z: min_v.z - crate::aabb::AABB_PAD,
        };
        let grown_max = Vec3 {
            x: max_v.x + crate::aabb::AABB_PAD,
            y: max_v.y + crate::aabb::AABB_PAD,
            z: max_v.z + crate::aabb::AABB_PAD,
        };
        let aabb = AABB::from_points(&grown_min, &grown_max);
        RotateY { object, sin_theta, cos_theta, aabb }
    }
}

impl Hittable {
    /// The bounding box of the shape.
    pub fn bounding_box(&self) -> (r: AABB)
        ensures
            r == h_bbox(*self),
        decreases *self,
    {
        match self {
            Hittable::Sphere(s) => s.aabb,
            Hittable::Quad(q) => q.aabb,
            Hittable::List(l) => l.aabb,
            Hittable::Bvh(n) => n.aabb,
            Hittable::Translated(t) => t.aabb,
            Hittable::RotatedY(r) => r.aabb,
            Hittable::Medium(m) => m.boundary.bounding_box(),
        }
    }

    /// Cast a ray against the shape over the open parameter range
    /// `(t0, t1)`.  On a hit the record holds an eligible parameter,
    /// a bounded point and normal, and the hit material.  For
    /// deterministic shapes the reported parameter is pinned exactly
    /// by `h_cand`.
    pub fn hit<'a>(
        &'a self,
        ray: &Ray,
        t0: i64,
        t1: i64,
        record: &mut HitRecord<'a>,
        rng: &mut RandomSource,
    ) -> (res: bool)
        requires
            h_wf(*self),
            wf_ray(*ray),
            -T_INF <= t0 <= T_INF,
            -T_INF <= t1 <= T_INF,
            hitrec_ok(*old(record)),
            old(record).in_ray == *ray,
        ensures
            !res ==> *final(record) == *old(record),
            res ==> elig(h_bbox(*self), *ray, t0 as int, t1 as int, final(record).t as int),
            res ==> hitrec_ok(*final(record)) && final(record).in_ray == *ray,
            res ==> (final(record).mat matches Some(m) && wf_material(*m)),
            res && crate::bvh::prim(*self) ==> final(record).point == crate::ray::ray_at_spec(
                *ray,
                final(record).t as int,
            ),
            res && crate::bvh::prim(*self) ==> final(record).normal == prim_normal(
                *self,
                *ray,
                final(record).t as int,
            ),
            res && crate::bvh::prim(*self) ==> (final(record).mat matches Some(m) && *m
                == prim_material(*self)),
            res && crate::bvh::prim(*self) ==> final(record).uv == prim_uv(
                *self,
                *ray,
                final(record).t as int,
            ),
            res && h_all_prim(*self) ==> record_from_prim(
                h_prim_members(*self),
                *ray,
                t0 as int,
                t1 as int,
                *final(record),
            ),
            h_det(*self) ==> (match h_cand(*self, *ray, t0 as int, t1 as int) {
                Some(t) => res && final(record).t == t,
                None => !res,
            }),
        decreases *self, 1int,
    {
        match self {
            Hittable::Sphere(s) => {
                let res = s.hit(ray, t0, t1, record);
                proof {
                    if res {
                        assert(h_prim_members(*self)[0] == *self);
                        assert(prim_fills(h_prim_members(*self)[0], *ray, *record));
                        assert(h_cand(*self, *ray, t0 as int, t1 as int) == Some(
                            record.t as int,
                        ));
                    }
                }
                res
            },
            Hittable::Quad(q) => {
                let res = q.hit(ray, t0, t1, record);
                proof {
                    if res {
                        assert(h_prim_members(*self)[0] == *self);
                        assert(prim_fills(h_prim_members(*self)[0], *ray, *record));
                        assert(h_cand(*self, *ray, t0 as int, t1 as int) == Some(
                            record.t as int,
                        ));
                    }
                }
                res
            },
            Hittable::List(l) => l.hit(ray, t0, t1, record, rng),
            Hittable::Bvh(n) => n.hit(ray, t0, t1, record, rng),
            Hittable::Translated(t) => t.hit(ray, t0, t1, record, rng),
            Hittable::RotatedY(r) => r.hit(ray, t0, t1, record, rng),
            Hittable::Medium(m) => m.hit(ray, t0, t1, record, rng),
        }
    }
}

impl HittableList {
    /// Probe every member, shrinking the upper range bound to the
    /// best hit so far, so the nearest hit wins.
    pub fn hit<'a>(
        &'a self,
        ray: &Ray,
        t0: i64,
        t1: i64,
        record: &mut HitRecord<'a>,
        rng: &mut RandomSource,
    ) -> (res: bool)
        requires
            h_wf(Hittable::List(*self)),
            wf_ray(*ray),
            -T_INF <= t0 <= T_INF,
            -T_INF <= t1 <= T_INF,
            hitrec_ok(*old(record)),
            old(record).in_ray == *ray,
        ensures
            !res ==> *final(record) == *old(record),
            res ==> elig(self.aabb, *ray, t0 as int, t1 as int, final(record).t as int),
            res ==> hitrec_ok(*final(record)) && final(record).in_ray == *ray,
            res ==> (final(record).mat matches Some(m) && wf_material(*m)),
            res && crate::bvh::all_prim(self.objects@) ==> record_from_prim(
                self.objects@,
                *ray,
                t0 as int,
                t1 as int,
                *final(record),
            ),
            h_det(Hittable::List(*self)) ==> (match h_cand(
                Hittable::List(*self),
                *ray,
                t0 as int,
                t1 as int,
            ) {
                Some(t) => res && final(record).t == t,
                None => !res,
            }),
        decreases Hittable::List(*self), 0int,
    {
        let n = self.objects.len();
        let mut hit_anything = false;
        let mut closest = t1;
        let mut i: usize = 0;
        while i < n
            invariant
                n == self.objects.len(),
                i <= n,
                h_wf(Hittable::List(*self)),
                wf_ray(*ray),
                -T_INF <= t0 <= T_INF,
                -T_INF <= t1 <= T_INF,
                hitrec_ok(*old(record)),
                old(record).in_ray == *ray,
                hitrec_ok(*record),
                record.in_ray == *ray,
                -T_INF <= closest <= T_INF,
                !hit_anything ==> *record == *old(record) && closest == t1,
                hit_anything ==> closest == record.t && elig(
                    self.aabb,
                    *ray,
                    t0 as int,
                    t1 as int,
                    record.t as int,
                ) && (record.mat matches Some(m) && wf_material(*m)),
                hit_anything && crate::bvh::all_prim(self.objects@) ==> record_from_prim(
                    self.objects@,
                    *ray,
                    t0 as int,
                    t1 as int,
                    *record,
                ),
                list_det(self.objects@, n as int) ==> (match list_cand(
                    self.objects@,
                    i as int,
                    *ray,
                    t0 as int,
                    t1 as int,
                ) {
                    Some(t) => hit_anything && record.t == t,
                    None => !hit_anything,
                }),
            decreases n - i,
        {
            proof {
                lemma_list_wf_index(self.objects@, n as int, self.aabb, i as int);
                if list_det(self.objects@, n as int) {
                    lemma_list_det_index(self.objects@, n as int, i as int);
                }
            }
            let object = &self.objects[i];
            if object.hit(ray, t0, closest, record, rng) {
                proof {
                    crate::aabb::lemma_point_inside_widen(
                        h_bbox(self.objects@[i as int]),
                        self.aabb,
                        *ray,
                        record.t as int,
                        FX_ONE as int,
                    );
                    if crate::bvh::all_prim(self.objects@) {
                        assert(crate::bvh::prim(self.objects@[i as int]));
                        assert(prim_fills(self.objects@[i as int], *ray, *record));
                        crate::bvh::lemma_prim_full_cand(
                            self.objects@[i as int],
                            *ray,
                            t0 as int,
                            closest as int,
                            t1 as int,
                            record.t as int,
                        );
                    }
                }
                hit_anything = true;
                closest = record.t;
            }
            i = i + 1;
        }
        hit_anything
    }
}

impl Translate {
    /// Shift the ray into the object frame, delegate, then shift the
    /// hit point back; the hit must land inside the shifted box.
    pub fn hit<'a>(
        &'a self,
        ray: &Ray,
        t0: i64,
        t1: i64,
        record: &mut HitRecord<'a>,
        rng: &mut RandomSource,
    ) -> (res: bool)
        requires
            h_wf(Hittable::Translated(*self)),
            wf_ray(*ray),
            -T_INF <= t0 <= T_INF,
            -T_INF <= t1 <= T_INF,
            hitrec_ok(*old(record)),
            old(record).in_ray == *ray,
        ensures
            !res ==> *final(record) == *old(record),
            res ==> elig(self.aabb, *ray, t0 as int, t1 as int, final(record).t as int),
            res ==> hitrec_ok(*final(record)) && final(record).in_ray == *ray,
            res ==> (final(record).mat matches Some(m) && wf_material(*m)),
            res && crate::bvh::prim(*self.object) ==> final(record).point == (Vec3 {
                x: crate::fixed::clamp_spec(
                    crate::ray::ray_at_spec(*ray, final(record).t as int).x as int,
                    -4 * MAX_WORLD,
                    4 * MAX_WORLD,
                ) as i64,
                y: crate::fixed::clamp_spec(
                    crate::ray::ray_at_spec(*ray, final(record).t as int).y as int,
                    -4 * MAX_WORLD,
                    4 * MAX_WORLD,
                ) as i64,
                z: crate::fixed::clamp_spec(
                    crate::ray::ray_at_spec(*ray, final(record).t as int).z as int,
                    -4 * MAX_WORLD,
                    4 * MAX_WORLD,
                ) as i64,
            }),
            res && crate::bvh::prim(*self.object) ==> final(record).normal == prim_normal(
                *self.object,
                offset_ray_spec(*ray, self.offset),
                final(record).t as int,
            ),
            res && crate::bvh::prim(*self.object) ==> final(record).uv == prim_uv(
                *self.object,
                offset_ray_spec(*ray, self.offset),
                final(record).t as int,
            ),
            res && crate::bvh::prim(*self.object) ==> (final(record).mat matches Some(m) && *m
                == prim_material(*self.object)),
            h_det(Hittable::Translated(*self)) ==> (match h_cand(
                Hittable::Translated(*self),
                *ray,
                t0 as int,
                t1 as int,
            ) {
                Some(t) => res && final(record).t == t,
                None => !res,
            }),
        decreases Hittable::Translated(*self), 0int,
    {
        let ox = ray.origin.x - self.offset.x;
        let oy = ray.origin.y - self.offset.y;
        let oz = ray.origin.z - self.offset.z;
        if ox < -4 * MAX_WORLD || ox > 4 * MAX_WORLD || oy < -4 * MAX_WORLD || oy > 4 * MAX_WORLD
            || oz < -4 * MAX_WORLD || oz > 4 * MAX_WORLD {
            return false;
        }
        let offset_ray = Ray {
            origin: Vec3 { x: ox, y: oy, z: oz },
            direction: ray.direction,
            time: ray.time,
        };
        let mut temp = *record;
        temp.in_ray = offset_ray;
        if !self.object.hit(&offset_ray, t0, t1, &mut temp, rng) {
            return false;
        }
        if !elig_check(&self.aabb, ray, temp.t, t0, t1) {
            return false;
        }
        let shifted_point = Vec3 {
            x: crate::fixed::fx_clamp(
                temp.point.x + self.offset.x,
                -4 * MAX_WORLD,
                4 * MAX_WORLD,
            ),
            y: crate::fixed::fx_clamp(
                temp.point.y + self.offset.y,
                -4 * MAX_WORLD,
                4 * MAX_WORLD,
            ),
            z: crate::fixed::fx_clamp(
                temp.point.z + self.offset.z,
                -4 * MAX_WORLD,
                4 * MAX_WORLD,
            ),
        };
        proof {
            if crate::bvh::prim(*self.object) {
                crate::ray::lemma_at_in_bounds(ray.direction.x as int, temp.t as int);
                crate::ray::lemma_at_in_bounds(ray.direction.y as int, temp.t as int);
                crate::ray::lemma_at_in_bounds(ray.direction.z as int, temp.t as int);
                assert(temp.point == crate::ray::ray_at_spec(offset_ray, temp.t as int));
            }
        }
        record.t = temp.t;
        record.point = shifted_point;
        record.normal = temp.normal;
        record.front_face = temp.front_face;
        record.mat = temp.mat;
        record.uv = temp.uv;
        true
    }
}

impl RotateY {
    /// Rotate the ray into the object frame, delegate, then rotate
    /// the hit point and normal back; the hit must land inside the
    /// rotated box.
    pub fn hit<'a>(
        &'a self,
        ray: &Ray,
        t0: i64,
        t1: i64,
        record: &mut HitRecord<'a>,
        rng: &mut RandomSource,
    ) -> (res: bool)
        requires
            h_wf(Hittable::RotatedY(*self)),
            wf_ray(*ray),
            -T_INF <= t0 <= T_INF,
            -T_INF <= t1 <= T_INF,
            hitrec_ok(*old(record)),
            old(record).in_ray == *ray,
        ensures
            !res ==> *final(record) == *old(record),
            res ==> elig(self.aabb, *ray, t0 as int, t1 as int, final(record).t as int),
            res ==> hitrec_ok(*final(record)) && final(record).in_ray == *ray,
            res ==> (final(record).mat matches Some(m) && wf_material(*m)),
            res && crate::bvh::prim(*self.object) ==> final(record).point == rot_out_spec(
                self.sin_theta as int,
                self.cos_theta as int,
                crate::ray::ray_at_spec(
                    rotated_ray_spec(*ray, self.sin_theta as int, self.cos_theta as int),
                    final(record).t as int,
                ),
            ),
            res && crate::bvh::prim(*self.object) ==> final(record).normal == rot_out_normal_spec(
                self.sin_theta as int,
                self.cos_theta as int,
                prim_normal(
                    *self.object,
                    rotated_ray_spec(*ray, self.sin_theta as int, self.cos_theta as int),
                    final(record).t as int,
                ),
            ),
            res && crate::bvh::prim(*self.object) ==> final(record).uv == prim_uv(
                *self.object,
                rotated_ray_spec(*ray, self.sin_theta as int, self.cos_theta as int),
                final(record).t as int,
            ),
            res && crate::bvh::prim(*self.object) ==> (final(record).mat matches Some(m) && *m
                == prim_material(*self.object)),
            h_det(Hittable::RotatedY(*self)) ==> (match h_cand(
                Hittable::RotatedY(*self),
                *ray,
                t0 as int,
                t1 as int,
            ) {
                Some(t) => res && final(record).t == t,
                None => !res,
            }),
        decreases Hittable::RotatedY(*self), 0int,
    {
        proof {
            lemma_small_product(self.cos_theta as int, ray.origin.x as int, 1, 16384);
            lemma_small_product(self.sin_theta as int, ray.origin.z as int, 1, 16384);
            lemma_small_product(self.sin_theta as int, ray.origin.x as int, 1, 16384);
            lemma_small_product(self.cos_theta as int, ray.origin.z as int, 1, 16384);
            lemma_small_product(self.cos_theta as int, ray.direction.x as int, 1, 32768);
            lemma_small_product(self.sin_theta as int, ray.direction.z as int, 1, 32768);
            lemma_small_product(self.sin_theta as int, ray.direction.x as int, 1, 32768);
            lemma_small_product(self.cos_theta as int, ray.direction.z as int, 1, 32768);
        }
        let r_ox = crate::fixed::mul_fx(self.cos_theta, ray.origin.x) - crate::fixed::mul_fx(
            self.sin_theta,
            ray.origin.z,
        );
        let r_oz = crate::fixed::mul_fx(self.sin_theta, ray.origin.x) + crate::fixed::mul_fx(
            self.cos_theta,
            ray.origin.z,
        );
        let r_dx = crate::fixed::mul_fx(self.cos_theta, ray.direction.x) - crate::fixed::mul_fx(
            self.sin_theta,
            ray.direction.z,
        );
        let r_dz = crate::fixed::mul_fx(self.sin_theta, ray.direction.x) + crate::fixed::mul_fx(
            self.cos_theta,
            ray.direction.z,
        );
        if r_ox < -4 * MAX_WORLD || r_ox > 4 * MAX_WORLD || r_oz < -4 * MAX_WORLD || r_oz > 4
            * MAX_WORLD || r_dx < -8 * MAX_WORLD || r_dx > 8 * MAX_WORLD || r_dz < -8 * MAX_WORLD
            || r_dz > 8 * MAX_WORLD {
            return false;
        }
        let rotated_ray = Ray {
            origin: Vec3 { x: r_ox, y: ray.origin.y, z: r_oz },
            direction: Vec3 { x: r_dx, y: ray.direction.y, z: r_dz },
            time: ray.time,
        };
        let mut temp = *record;
        temp.in_ray = rotated_ray;
        if !self.object.hit(&rotated_ray, t0, t1, &mut temp, rng) {
            return false;
        }
        if !elig_check(&self.aabb, ray, temp.t, t0, t1) {
            return false;
        }
        proof {
            lemma_small_product(self.cos_theta as int, temp.point.x as int, 1, 16384);
            lemma_small_product(self.sin_theta as int, temp.point.z as int, 1, 16384);
            lemma_small_product(self.sin_theta as int, temp.point.x as int, 1, 16384);
            lemma_small_product(self.cos_theta as int, temp.point.z as int, 1, 16384);
            lemma_small_product(self.cos_theta as int, temp.normal.x as int, 1, 2);
            lemma_small_product(self.sin_theta as int, temp.normal.z as int, 1, 2);
            lemma_small_product(self.sin_theta as int, temp.normal.x as int, 1, 2);
            lemma_small_product(self.cos_theta as int, temp.normal.z as int, 1, 2);
        }
        let p_x = crate::fixed::mul_fx(self.cos_theta, temp.point.x) + crate::fixed::mul_fx(
            self.sin_theta,
            temp.point.z,
        );
        let p_z = -crate::fixed::mul_fx(self.sin_theta, temp.point.x) + crate::fixed::mul_fx(
            self.cos_theta,
            temp.point.z,
        );
        let n_x = crate::fixed::mul_fx(self.cos_theta, temp.normal.x) + crate::fixed::mul_fx(
            self.sin_theta,
            temp.normal.z,
        );
        let n_z = -crate::fixed::mul_fx(self.sin_theta, temp.normal.x) + crate::fixed::mul_fx(
            self.cos_theta,
            temp.normal.z,
        );
        record.t = temp.t;
        record.point = Vec3 {
            x: crate::fixed::fx_clamp(p_x, -4 * MAX_WORLD, 4 * MAX_WORLD),
            y: temp.point.y,
            z: crate::fixed::fx_clamp(p_z, -4 * MAX_WORLD, 4 * MAX_WORLD),
        };
        record.normal = Vec3 {
            x: crate::fixed::fx_clamp(n_x, -2 * FX_ONE, 2 * FX_ONE),
            y: temp.normal.y,
            z: crate::fixed::fx_clamp(n_z, -2 * FX_ONE, 2 * FX_ONE),
        };
        record.front_face = temp.front_face;
        record.mat = temp.mat;
        record.uv = temp.uv;
        true
    }
}

} // verus!
