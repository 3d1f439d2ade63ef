//! Fixed-point scalar, vector and bounding-box behavior.

use ray_tracer_rust::aabb::{Interval, AABB};
use ray_tracer_rust::fixed::{floor_div, floor_units, isqrt_u128, FX_ONE};
use ray_tracer_rust::ray::Ray;
use ray_tracer_rust::vector::{max_vec3, min_vec3, Vec3};

fn fx(units: i64) -> i64 {
    units * FX_ONE
}

fn v(x: i64, y: i64, z: i64) -> Vec3 {
    Vec3 { x: fx(x), y: fx(y), z: fx(z) }
}

#[test]
fn isqrt_exact_squares() {
    assert_eq!(isqrt_u128(0), 0);
    assert_eq!(isqrt_u128(1), 1);
    assert_eq!(isqrt_u128(3), 1);
    assert_eq!(isqrt_u128(4), 2);
    assert_eq!(isqrt_u128(123456789 * 123456789), 123456789);
    assert_eq!(isqrt_u128(123456789 * 123456789 + 1), 123456789);
}

#[test]
fn floor_division_rounds_down() {
    assert_eq!(floor_div(7, 2), 3);
    assert_eq!(floor_div(-7, 2), -4);
    assert_eq!(floor_units(fx(3) + 5), 3);
    assert_eq!(floor_units(-fx(3) - 5), -4);
    assert_eq!(floor_units(-fx(3)), -3);
}

#[test]
fn vector_componentwise_extremes() {
    let a = v(1, 5, -3);
    let b = v(2, -4, 0);
    let lo = min_vec3(&a, &b);
    let hi = max_vec3(&a, &b);
    assert_eq!(lo, v(1, -4, -3));
    assert_eq!(hi, v(2, 5, 0));
}

#[test]
fn aabb_new_normalizes_reversed_ranges() {
    let b = AABB::new(
        Interval { lo: fx(2), hi: fx(-2) },
        Interval { lo: fx(-1), hi: fx(1) },
        Interval { lo: fx(0), hi: fx(3) },
    );
    assert!(b.x.lo < b.x.hi);
    assert_eq!(b.x.lo, fx(-2));
    assert_eq!(b.x.hi, fx(2));
}

#[test]
fn aabb_pads_degenerate_axes() {
    let b = AABB::new(
        Interval { lo: 0, hi: 0 },
        Interval { lo: fx(-1), hi: fx(1) },
        Interval { lo: fx(-1), hi: fx(1) },
    );
    assert!(b.x.lo < 0 && b.x.hi > 0);
    assert_eq!(b.y.lo, fx(-1));
}

#[test]
fn combine_bounds_is_componentwise_union() {
    let a = AABB::new(
        Interval { lo: fx(-1), hi: fx(1) },
        Interval { lo: fx(0), hi: fx(2) },
        Interval { lo: fx(-3), hi: fx(-1) },
    );
    let b = AABB::new(
        Interval { lo: fx(0), hi: fx(4) },
        Interval { lo: fx(-2), hi: fx(1) },
        Interval { lo: fx(-2), hi: fx(5) },
    );
    let c = AABB::combine_bounds(&a, &b);
    assert_eq!(c.x.lo, fx(-1));
    assert_eq!(c.x.hi, fx(4));
    assert_eq!(c.y.lo, fx(-2));
    assert_eq!(c.y.hi, fx(2));
    assert_eq!(c.z.lo, fx(-3));
    assert_eq!(c.z.hi, fx(5));
    // the union contains both inputs on every axis
    assert!(c.x.lo <= a.x.lo && a.x.hi <= c.x.hi);
    assert!(c.x.lo <= b.x.lo && b.x.hi <= c.x.hi);
    assert!(c.z.lo <= a.z.lo && a.z.hi <= c.z.hi);
    assert!(c.z.lo <= b.z.lo && b.z.hi <= c.z.hi);
}

fn unit_box() -> AABB {
    AABB::new(
        Interval { lo: fx(-1), hi: fx(1) },
        Interval { lo: fx(-1), hi: fx(1) },
        Interval { lo: fx(-1), hi: fx(1) },
    )
}

#[test]
fn slab_test_hits_box_straight_on() {
    let b = unit_box();
    let ray = Ray { origin: v(-5, 0, 0), direction: v(1, 0, 0), time: 0 };
    assert!(b.hit(&ray, 0, fx(100)));
}

#[test]
fn slab_test_misses_box_aimed_away() {
    let b = unit_box();
    let ray = Ray { origin: v(-5, 0, 0), direction: v(-1, 0, 0), time: 0 };
    assert!(!b.hit(&ray, 0, fx(100)));
}

#[test]
fn slab_test_misses_box_offset_sideways() {
    let b = unit_box();
    let ray = Ray { origin: v(-5, 3, 0), direction: v(1, 0, 0), time: 0 };
    assert!(!b.hit(&ray, 0, fx(100)));
}

#[test]
fn slab_test_respects_range() {
    let b = unit_box();
    let ray = Ray { origin: v(-5, 0, 0), direction: v(1, 0, 0), time: 0 };
    // the box spans parameters 4..6; a range ending earlier misses
    assert!(!b.hit(&ray, 0, fx(3)));
    assert!(b.hit(&ray, 0, fx(5)));
    // and a range starting past it misses too
    assert!(!b.hit(&ray, fx(7), fx(100)));
}

#[test]
fn slab_test_agrees_with_brute_force_sampling() {
    // brute-force reference: march the ray and test the box interior
    let boxes = [
        unit_box(),
        AABB::new(
            Interval { lo: fx(1), hi: fx(3) },
            Interval { lo: fx(-2), hi: fx(0) },
            Interval { lo: fx(2), hi: fx(6) },
        ),
    ];
    let rays = [
        Ray { origin: v(-4, 0, 0), direction: v(1, 0, 0), time: 0 },
        Ray { origin: v(0, -4, 0), direction: v(0, 1, 0), time: 0 },
        Ray { origin: v(2, -4, 4), direction: v(0, 1, 0), time: 0 },
        Ray { origin: v(-4, -4, -4), direction: v(1, 1, 1), time: 0 },
        Ray { origin: v(-4, -4, -4), direction: v(1, 2, 0), time: 0 },
        Ray { origin: v(5, 5, 5), direction: v(-1, -1, -1), time: 0 },
    ];
    for b in boxes.iter() {
        for ray in rays.iter() {
            let hit = b.hit(ray, 0, fx(100));
            let mut brute = false;
            // sample the parametric line densely
            for step in 1..4000 {
                let t = step * fx(100) / 4000;
                let px = ray.origin.x as i128 * FX_ONE as i128
                    + ray.direction.x as i128 * t as i128;
                let py = ray.origin.y as i128 * FX_ONE as i128
                    + ray.direction.y as i128 * t as i128;
                let pz = ray.origin.z as i128 * FX_ONE as i128
                    + ray.direction.z as i128 * t as i128;
                let s = FX_ONE as i128;
                if px > b.x.lo as i128 * s
                    && px < b.x.hi as i128 * s
                    && py > b.y.lo as i128 * s
                    && py < b.y.hi as i128 * s
                    && pz > b.z.lo as i128 * s
                    && pz < b.z.hi as i128 * s
                {
                    brute = true;
                    break;
                }
            }
            // a sampled interior point implies a hit; for these
            // non-grazing rays the converse holds as well
            assert_eq!(hit, brute);
        }
    }
}

#[test]
fn longest_axis_prefers_earlier_axis_on_ties() {
    let b = AABB::new(
        Interval { lo: fx(-2), hi: fx(2) },
        Interval { lo: fx(-1), hi: fx(1) },
        Interval { lo: fx(0), hi: fx(1) },
    );
    assert_eq!(b.longest_axis_index(), 0);
    // all axes equal: the tie resolves toward x
    let c = unit_box();
    assert_eq!(c.longest_axis_index(), 0);
    // y and z tied above x: the tie resolves toward y
    let d = AABB::new(
        Interval { lo: fx(0), hi: fx(1) },
        Interval { lo: fx(-2), hi: fx(2) },
        Interval { lo: fx(-2), hi: fx(2) },
    );
    assert_eq!(d.longest_axis_index(), 1);
    let e = AABB::new(
        Interval { lo: fx(0), hi: fx(1) },
        Interval { lo: fx(0), hi: fx(2) },
        Interval { lo: fx(-2), hi: fx(2) },
    );
    assert_eq!(e.longest_axis_index(), 2);
}

#[test]
fn empty_box_is_identity_for_combination() {
    let empty = AABB::new_empty();
    let b = AABB::new(
        Interval { lo: fx(5), hi: fx(6) },
        Interval { lo: fx(5), hi: fx(6) },
        Interval { lo: fx(5), hi: fx(6) },
    );
    assert_eq!(AABB::combine_bounds(&empty, &b), b);
    assert_eq!(AABB::combine_bounds(&b, &empty), b);
}

#[test]
fn axis_indexing_and_iteration() {
    let b = unit_box();
    assert_eq!(b.axis(0), Some(b.x));
    assert_eq!(b.axis(1), Some(b.y));
    assert_eq!(b.axis(2), Some(b.z));
    assert_eq!(b.axis(3), None);
    let mut it = b.axes();
    assert_eq!(it.next(), Some(b.x));
    assert_eq!(it.next(), Some(b.y));
    assert_eq!(it.next(), Some(b.z));
    assert_eq!(it.next(), None);
}
