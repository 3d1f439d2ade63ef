//! Intersection behavior: spheres, quads, lists, the bounding-volume
//! hierarchy, and the constant medium.

use ray_tracer_rust::aabb::AABB;
use ray_tracer_rust::bvh::BVHNode;
use ray_tracer_rust::constant_medium::ConstantMedium;
use ray_tracer_rust::fixed::{FX_ONE, T_INF};
use ray_tracer_rust::hittable::{HitRecord, Hittable, HittableList, RotateY, Translate};
use ray_tracer_rust::material::{Lambertian, Material};
use ray_tracer_rust::quad::Quad;
use ray_tracer_rust::ray::Ray;
use ray_tracer_rust::rng::RandomSource;
use ray_tracer_rust::scene::Scene;
use ray_tracer_rust::sphere::Sphere;
use ray_tracer_rust::vector::Vec3;

fn fx(units: i64) -> i64 {
    units * FX_ONE
}

fn v(x: i64, y: i64, z: i64) -> Vec3 {
    Vec3 { x: fx(x), y: fx(y), z: fx(z) }
}

fn gray() -> Material {
    Material::Lambertian(Lambertian::from_color_components(
        FX_ONE / 2,
        FX_ONE / 2,
        FX_ONE / 2,
    ))
}

fn sphere_at(x: i64, y: i64, z: i64, radius_units: i64) -> Hittable {
    Hittable::Sphere(Sphere::new(
        v(x, y, z),
        Vec3 { x: 0, y: 0, z: 0 },
        fx(radius_units),
        gray(),
    ))
}

fn cast<'a>(h: &'a Hittable, ray: &Ray, rng: &mut RandomSource) -> Option<HitRecord<'a>> {
    let mut rec = HitRecord::new(ray);
    if h.hit(ray, 0, T_INF, &mut rec, rng) {
        Some(rec)
    } else {
        None
    }
}

#[test]
fn sphere_hit_straight_on_reports_near_surface() {
    let s = sphere_at(0, 0, -5, 1);
    let ray = Ray { origin: v(0, 0, 0), direction: v(0, 0, -1), time: 0 };
    let mut rng = RandomSource::new(1);
    let rec = cast(&s, &ray, &mut rng).expect("must hit");
    // first surface crossing at t = 4
    assert!((rec.t - fx(4)).abs() < FX_ONE / 100);
    assert!((rec.point.z + fx(4)).abs() < FX_ONE / 100);
    // normal faces the ray
    assert!(rec.front_face);
    assert!(rec.normal.z > 0);
}

#[test]
fn sphere_miss_reports_nothing() {
    let s = sphere_at(0, 0, -5, 1);
    let ray = Ray { origin: v(0, 0, 0), direction: v(0, 1, 0), time: 0 };
    let mut rng = RandomSource::new(1);
    assert!(cast(&s, &ray, &mut rng).is_none());
}

#[test]
fn sphere_range_excludes_far_root() {
    let s = sphere_at(0, 0, -5, 1);
    let ray = Ray { origin: v(0, 0, 0), direction: v(0, 0, -1), time: 0 };
    let mut rec = HitRecord::new(&ray);
    let mut rng = RandomSource::new(1);
    // only the far surface lies inside (5, 10): the near root at 4
    // is skipped and the far root at 6 wins
    assert!(s.hit(&ray, fx(5), fx(10), &mut rec, &mut rng));
    assert!((rec.t - fx(6)).abs() < FX_ONE / 100);
}

#[test]
fn moving_sphere_follows_its_velocity() {
    let s = Hittable::Sphere(Sphere::new(
        v(0, 0, -5),
        v(0, 4, 0),
        fx(1),
        gray(),
    ));
    let toward = Ray { origin: v(0, 0, 0), direction: v(0, 0, -1), time: 0 };
    let mut rng = RandomSource::new(1);
    assert!(cast(&s, &toward, &mut rng).is_some());
    // at exposure end the sphere has moved up by four units
    let late = Ray { origin: v(0, 0, 0), direction: v(0, 0, -1), time: FX_ONE };
    assert!(cast(&s, &late, &mut rng).is_none());
    let late_up = Ray { origin: v(0, 4, 0), direction: v(0, 0, -1), time: FX_ONE };
    assert!(cast(&s, &late_up, &mut rng).is_some());
}

#[test]
fn moving_sphere_with_negative_velocity_stays_hittable() {
    let s = Hittable::Sphere(Sphere::new(v(0, 0, -5), v(-2, 0, 0), fx(1), gray()));
    let mut rng = RandomSource::new(1);
    // the swept box must cover the sphere at both exposure ends
    let early = Ray { origin: v(0, 0, 0), direction: v(0, 0, -1), time: 0 };
    assert!(cast(&s, &early, &mut rng).is_some());
    let late = Ray { origin: v(-2, 0, 0), direction: v(0, 0, -1), time: FX_ONE };
    assert!(cast(&s, &late, &mut rng).is_some());
}

#[test]
fn sphere_surface_coordinates_orient_the_texture() {
    let s = sphere_at(0, 0, 0, 1);
    let mut rng = RandomSource::new(1);
    // the positive x axis crosses the equator at (1/2, 1/2)
    let from_x = Ray { origin: v(5, 0, 0), direction: v(-1, 0, 0), time: 0 };
    let rec = cast(&s, &from_x, &mut rng).expect("must hit");
    assert!((rec.uv.x - FX_ONE / 2).abs() < FX_ONE / 50);
    assert!((rec.uv.y - FX_ONE / 2).abs() < FX_ONE / 50);
    // the north pole maps to the top of the texture, the south to
    // the bottom
    let from_above = Ray { origin: v(0, 5, 0), direction: v(0, -1, 0), time: 0 };
    let top = cast(&s, &from_above, &mut rng).expect("must hit");
    assert!(top.uv.y > 9 * FX_ONE / 10);
    let from_below = Ray { origin: v(0, -5, 0), direction: v(0, 1, 0), time: 0 };
    let bottom = cast(&s, &from_below, &mut rng).expect("must hit");
    assert!(bottom.uv.y < FX_ONE / 10);
}

#[test]
fn quad_hit_inside_cell_only() {
    let q = Hittable::Quad(Quad::new(v(-1, -1, -3), v(2, 0, 0), v(0, 2, 0), gray()));
    let mut rng = RandomSource::new(1);
    let center = Ray { origin: v(0, 0, 0), direction: v(0, 0, -1), time: 0 };
    let rec = cast(&q, &center, &mut rng).expect("center must hit");
    assert!((rec.t - fx(3)).abs() < FX_ONE / 100);
    let outside = Ray { origin: v(2, 2, 0), direction: v(0, 0, -1), time: 0 };
    assert!(cast(&q, &outside, &mut rng).is_none());
    let parallel = Ray { origin: v(0, 0, 0), direction: v(1, 0, 0), time: 0 };
    assert!(cast(&q, &parallel, &mut rng).is_none());
}

#[test]
fn quad_surface_coordinates_span_the_cell() {
    let q = Hittable::Quad(Quad::new(v(-1, -1, -3), v(2, 0, 0), v(0, 2, 0), gray()));
    let mut rng = RandomSource::new(1);
    let low_corner = Ray {
        origin: Vec3 { x: -FX_ONE / 2, y: -FX_ONE / 2, z: 0 },
        direction: v(0, 0, -1),
        time: 0,
    };
    let rec = cast(&q, &low_corner, &mut rng).expect("must hit");
    // planar coordinates at (-0.5, -0.5, -3) are (0.25, 0.25)
    assert!((rec.uv.x - FX_ONE / 4).abs() < FX_ONE / 50);
    assert!((rec.uv.y - FX_ONE / 4).abs() < FX_ONE / 50);
}

#[test]
fn list_returns_nearest_of_several() {
    let mut list = HittableList::new();
    list.add(sphere_at(0, 0, -10, 1));
    list.add(sphere_at(0, 0, -5, 1));
    list.add(sphere_at(0, 0, -20, 1));
    let h = Hittable::List(list);
    let ray = Ray { origin: v(0, 0, 0), direction: v(0, 0, -1), time: 0 };
    let mut rng = RandomSource::new(1);
    let rec = cast(&h, &ray, &mut rng).expect("must hit");
    assert!((rec.t - fx(4)).abs() < FX_ONE / 100);
}

#[test]
fn scene_matches_list_result() {
    let mut scene = Scene::new();
    scene.add(sphere_at(0, 0, -10, 1));
    scene.add(sphere_at(0, 0, -5, 1));
    let ray = Ray { origin: v(0, 0, 0), direction: v(0, 0, -1), time: 0 };
    let mut rec = HitRecord::new(&ray);
    let mut rng = RandomSource::new(1);
    assert!(scene.hit(&ray, 0, T_INF, &mut rec, &mut rng));
    assert!((rec.t - fx(4)).abs() < FX_ONE / 100);
}

fn grid_spheres() -> Vec<Hittable> {
    let mut objects = Vec::new();
    for ix in -2i64..3 {
        for iz in 1i64..6 {
            objects.push(sphere_at(ix * 4, 0, -(iz * 4), 1));
        }
    }
    objects
}

#[test]
fn bvh_node_box_is_union_of_children() {
    let node = BVHNode::from(grid_spheres());
    let left = node.left.bounding_box();
    let right = node.right.bounding_box();
    let union = AABB::combine_bounds(&left, &right);
    assert_eq!(node.aabb, union);
}

#[test]
fn bvh_leaves_recover_the_input_set() {
    let objects = grid_spheres();
    let mut centers: Vec<(i64, i64, i64)> = objects
        .iter()
        .map(|h| match h {
            Hittable::Sphere(s) => (s.center.x, s.center.y, s.center.z),
            _ => unreachable!(),
        })
        .collect();
    let node = BVHNode::from(objects);
    let mut leaves = Vec::new();
    node.collect_leaves(&mut leaves);
    let mut leaf_centers: Vec<(i64, i64, i64)> = leaves
        .iter()
        .map(|h| match h {
            Hittable::Sphere(s) => (s.center.x, s.center.y, s.center.z),
            _ => unreachable!(),
        })
        .collect();
    centers.sort();
    leaf_centers.sort();
    assert_eq!(centers, leaf_centers);
}

#[test]
fn bvh_query_matches_brute_force_scan() {
    let bvh = Hittable::Bvh(Box::new(BVHNode::from(grid_spheres())));
    let mut list = HittableList::new();
    for s in grid_spheres() {
        list.add(s);
    }
    let flat = Hittable::List(list);
    let mut rng = RandomSource::new(1);
    let mut checked = 0;
    for ox in -2i64..3 {
        for dz in 1i64..4 {
            for dx in -1i64..2 {
                let ray = Ray {
                    origin: v(ox * 3, 0, 8),
                    direction: v(dx, 0, -dz),
                    time: 0,
                };
                let a = cast(&bvh, &ray, &mut rng);
                let b = cast(&flat, &ray, &mut rng);
                match (a, b) {
                    (Some(ra), Some(rb)) => {
                        assert_eq!(ra.t, rb.t);
                        checked += 1;
                    },
                    (None, None) => {},
                    _ => panic!("tree and scan disagree on whether the ray hits"),
                }
            }
        }
    }
    assert!(checked > 5);
}

#[test]
fn bvh_over_one_object_behaves_like_the_object() {
    let node = BVHNode::from(vec![sphere_at(0, 0, -5, 1)]);
    let mut leaves = Vec::new();
    node.collect_leaves(&mut leaves);
    assert_eq!(leaves.len(), 1);
    let h = Hittable::Bvh(Box::new(node));
    let mut rng = RandomSource::new(1);
    let toward = Ray { origin: v(0, 0, 0), direction: v(0, 0, -1), time: 0 };
    let rec = cast(&h, &toward, &mut rng).expect("must hit");
    assert!((rec.t - fx(4)).abs() < FX_ONE / 100);
    let away = Ray { origin: v(0, 0, 0), direction: v(0, 1, 0), time: 0 };
    assert!(cast(&h, &away, &mut rng).is_none());
}

#[test]
fn constant_medium_never_reports_outside_its_boundary() {
    let boundary = sphere_at(0, 0, -5, 2);
    let medium = ConstantMedium::from_color(
        Box::new(boundary),
        fx(50),
        Vec3 { x: FX_ONE / 2, y: FX_ONE / 2, z: FX_ONE / 2 },
    );
    let h = Hittable::Medium(medium);
    let beside = Ray { origin: v(0, 5, 0), direction: v(0, 0, -1), time: 0 };
    let mut rng = RandomSource::new(9);
    for _ in 0..50 {
        assert!(cast(&h, &beside, &mut rng).is_none());
    }
}

#[test]
fn translate_shifts_hits_and_box() {
    let inner = sphere_at(0, 0, -5, 1);
    let t = Translate::new(Box::new(inner), v(3, 0, 0));
    let h = Hittable::Translated(t);
    let mut rng = RandomSource::new(1);
    let miss = Ray { origin: v(0, 0, 0), direction: v(0, 0, -1), time: 0 };
    assert!(cast(&h, &miss, &mut rng).is_none());
    let hit = Ray { origin: v(3, 0, 0), direction: v(0, 0, -1), time: 0 };
    let rec = cast(&h, &hit, &mut rng).expect("must hit after shift");
    assert!((rec.point.x - fx(3)).abs() < FX_ONE / 10);
}

#[test]
fn rotate_y_quarter_turn_moves_geometry() {
    let inner = sphere_at(4, 0, 0, 1);
    let r = RotateY::new(Box::new(inner), fx(90));
    let h = Hittable::RotatedY(r);
    let mut rng = RandomSource::new(1);
    // after a quarter turn about y the sphere sits near z = -4 or
    // z = +4 depending on orientation; probe both
    let toward_neg_z = Ray { origin: v(0, 0, 8), direction: v(0, 0, -1), time: 0 };
    let toward_pos_x = Ray { origin: v(8, 0, 0), direction: v(-1, 0, 0), time: 0 };
    let hit_z = cast(&h, &toward_neg_z, &mut rng).is_some();
    let hit_x = cast(&h, &toward_pos_x, &mut rng).is_some();
    assert!(hit_z != hit_x, "rotation must move the sphere off its starting axis");
    assert!(!hit_x, "the starting position must now miss");
}

#[test]
fn rotation_of_zero_degrees_is_identity() {
    let inner = sphere_at(4, 0, 0, 1);
    let r = RotateY::new(Box::new(inner), 0);
    // the rational sine is exact at zero and at the quarter turn
    assert_eq!(r.sin_theta, 0);
    assert_eq!(r.cos_theta, FX_ONE);
}

#[test]
fn constant_medium_scatters_inside_boundary() {
    let boundary = sphere_at(0, 0, -5, 2);
    let medium = ConstantMedium::from_color(
        Box::new(boundary),
        fx(50),
        Vec3 { x: FX_ONE / 2, y: FX_ONE / 2, z: FX_ONE / 2 },
    );
    let h = Hittable::Medium(medium);
    let ray = Ray { origin: v(0, 0, 0), direction: v(0, 0, -1), time: 0 };
    let mut rng = RandomSource::new(9);
    let mut hits = 0;
    for _ in 0..50 {
        if let Some(rec) = cast(&h, &ray, &mut rng) {
            hits += 1;
            // the sampled event lies inside the boundary's box
            assert!(rec.t > fx(2));
            assert!(rec.t < fx(8));
        }
    }
    // a dense medium scatters nearly every ray that crosses it
    assert!(hits > 40);
}

#[test]
fn box_of_quads_encloses_space() {
    let b = Quad::box_from_opposite_corners(v(-1, -1, -4), v(1, 1, -2), gray());
    let mut rng = RandomSource::new(1);
    let through = Ray { origin: v(0, 0, 0), direction: v(0, 0, -1), time: 0 };
    let rec = cast(&b, &through, &mut rng).expect("front face must hit");
    assert!((rec.t - fx(2)).abs() < FX_ONE / 100);
    let beside = Ray { origin: v(3, 0, 0), direction: v(0, 0, -1), time: 0 };
    assert!(cast(&b, &beside, &mut rng).is_none());
}
