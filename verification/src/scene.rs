//! A scene: a flat collection of hittables traced without an
//! enclosing box.

use vstd::prelude::*;

use crate::aabb::AABB;
use crate::fixed::{MAX_WORLD, T_INF};
use crate::hittable::{
    h_bbox, h_wf, hitrec_ok, list_cand, list_det, list_wf, HitRecord, Hittable,
};
use crate::material::wf_material;
use crate::ray::{wf_ray, Ray};
use crate::rng::RandomSource;

verus! {

broadcast use vstd::std_specs::vec::group_vec_axioms, vstd::seq::group_seq_axioms;

/// A scene full of objects to render.
pub struct Scene {
    pub objects: Vec<Hittable>,
}

/// Every member is well formed (and so fits in the universal box).
pub open spec fn scene_wf(s: Scene) -> bool {
    list_wf(s.objects@, s.objects@.len() as int, universe_box())
}

/// The box that contains every well-formed box.
pub open spec fn universe_box() -> AABB {
    AABB {
        x: crate::aabb::Interval { lo: (-crate::aabb::MAX_BOX) as i64, hi: crate::aabb::MAX_BOX },
        y: crate::aabb::Interval { lo: (-crate::aabb::MAX_BOX) as i64, hi: crate::aabb::MAX_BOX },
        z: crate::aabb::Interval { lo: (-crate::aabb::MAX_BOX) as i64, hi: crate::aabb::MAX_BOX },
    }
}

impl Scene {
    /// An empty scene.
    pub fn new() -> (r: Scene)
        ensures
            r.objects.len() == 0,
            scene_wf(r),
    {
        let objects: Vec<Hittable> = Vec::new();
        proof {
            assert(list_wf(objects@, 0, universe_box()));
        }
        Scene { objects }
    }

    /// Add an object to the scene.
    pub fn add(&mut self, object: Hittable)
        requires
            scene_wf(*old(self)),
            h_wf(object),
        ensures
            final(self).objects@ == old(self).objects@.push(object),
            scene_wf(*final(self)),
    {
        proof {
            crate::hittable::lemma_h_bbox_wf(object);
            lemma_scene_wf_push(self.objects@, object);
        }
        self.objects.push(object);
    }

    /// Probe every object, shrinking the upper range bound to the
    /// best hit so far, so the nearest hit wins.
    pub fn hit<'a>(
        &'a self,
        ray: &Ray,
        t0: i64,
        t1: i64,
        record: &mut HitRecord<'a>,
        rng: &mut RandomSource,
    ) -> (res: bool)
        requires
            scene_wf(*self),
            wf_ray(*ray),
            -T_INF <= t0 <= T_INF,
            -T_INF <= t1 <= T_INF,
            hitrec_ok(*old(record)),
            old(record).in_ray == *ray,
        ensures
            !res ==> *final(record) == *old(record),
            res ==> hitrec_ok(*final(record)) && final(record).in_ray == *ray,
            res ==> (final(record).mat matches Some(m) && wf_material(*m)),
            res ==> t0 < final(record).t < t1 && -MAX_WORLD <= final(record).t <= MAX_WORLD,
            res && crate::bvh::all_prim(self.objects@) ==> crate::hittable::record_from_prim(
                self.objects@,
                *ray,
                t0 as int,
                t1 as int,
                *final(record),
            ),
            list_det(self.objects@, self.objects@.len() as int) ==> (match list_cand(
                self.objects@,
                self.objects@.len() as int,
                *ray,
                t0 as int,
                t1 as int,
            ) {
                Some(t) => res && final(record).t == t,
                None => !res,
            }),
    {
        let n = self.objects.len();
        let mut hit_anything = false;
        let mut closest = t1;
        let mut i: usize = 0;
        while i < n
            invariant
                n == self.objects.len(),
                i <= n,
                scene_wf(*self),
                wf_ray(*ray),
                -T_INF <= t0 <= T_INF,
                -T_INF <= t1 <= T_INF,
                hitrec_ok(*old(record)),
                old(record).in_ray == *ray,
                hitrec_ok(*record),
                record.in_ray == *ray,
                -T_INF <= closest <= T_INF,
                closest <= t1,
                !hit_anything ==> *record == *old(record) && closest == t1,
                hit_anything ==> closest == record.t && t0 < record.t < t1 && -MAX_WORLD
                    <= record.t <= MAX_WORLD && (record.mat matches Some(m) && wf_material(*m)),
                hit_anything && crate::bvh::all_prim(self.objects@)
                    ==> crate::hittable::record_from_prim(
                    self.objects@,
                    *ray,
                    t0 as int,
                    t1 as int,
                    *record,
                ),
                list_det(self.objects@, n as int) ==> (match list_cand(
                    self.objects@,
                    i as int,
                    *ray,
                    t0 as int,
                    t1 as int,
                ) {
                    Some(t) => hit_anything && record.t == t,
                    None => !hit_anything,
                }),
            decreases n - i,
        {
            proof {
                crate::hittable::lemma_list_wf_index(
                    self.objects@,
                    n as int,
                    universe_box(),
                    i as int,
                );
                if list_det(self.objects@, n as int) {
                    crate::hittable::lemma_list_det_index(self.objects@, n as int, i as int);
                }
            }
            let object = &self.objects[i];
            if object.hit(ray, t0, closest, record, rng) {
                proof {
                    if crate::bvh::all_prim(self.objects@) {
                        assert(crate::bvh::prim(self.objects@[i as int]));
                        assert(crate::hittable::prim_fills(self.objects@[i as int], *ray, *record));
                        crate::bvh::lemma_prim_full_cand(
                            self.objects@[i as int],
                            *ray,
                            t0 as int,
                            closest as int,
                            t1 as int,
                            record.t as int,
                        );
                    }
                }
                hit_anything = true;
                closest = record.t;
            }
            i = i + 1;
        }
        hit_anything
    }
}

proof fn lemma_scene_wf_push(v: Seq<Hittable>, object: Hittable)
    requires
        list_wf(v, v.len() as int, universe_box()),
        h_wf(object),
        crate::aabb::wf_aabb(h_bbox(object)),
    ensures
        list_wf(v.push(object), v.len() as int + 1, universe_box()),
{
    lemma_scene_wf_frame(v, v.push(object), v.len() as int);
    assert(v.push(object)[v.len() as int] == object);
    assert(crate::aabb::box_contains(universe_box(), h_bbox(object)));
}

proof fn lemma_scene_wf_frame(a: Seq<Hittable>, b: Seq<Hittable>, i: int)
    requires
        list_wf(a, i, universe_box()),
        i <= a.len(),
        i <= b.len(),
        forall|j: int| 0 <= j < i ==> a[j] == b[j],
    ensures
        list_wf(b, i, universe_box()),
    decreases i,
{
    if i <= 0 {
    } else {
        lemma_scene_wf_frame(a, b, i - 1);
    }
}

} // verus!
