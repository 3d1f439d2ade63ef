//! Rays: an origin, a direction, and a time stamp for motion blur.

use vstd::prelude::*;

use crate::fixed::{abs_int, fx_mul, in_world, mul_fx, FX_ONE, MAX_WORLD};
use crate::vector::{vec_bounded, Vec3};

verus! {

/// A ray with a time stamp in `[0, 1]` used to interpolate moving
/// geometry.
#[derive(Clone, Copy, Debug, PartialEq, Eq, Structural)]
pub struct Ray {
    pub origin: Vec3,
    pub direction: Vec3,
    pub time: i64,
}

/// The origin stays near the scene, the direction is bounded, and
/// the time stamp is a fixed-point value in `[0, 1]`.
pub open spec fn wf_ray(r: Ray) -> bool {
    &&& abs_int(r.origin.x as int) <= 4 * MAX_WORLD
    &&& abs_int(r.origin.y as int) <= 4 * MAX_WORLD
    &&& abs_int(r.origin.z as int) <= 4 * MAX_WORLD
    &&& vec_bounded(r.direction)
    &&& 0 <= r.time <= FX_ONE
}

/// The point the ray reaches at parameter `t`, componentwise
/// `origin + direction * t` in fixed point.
pub open spec fn ray_at_spec(r: Ray, t: int) -> Vec3 {
    Vec3 {
        x: (r.origin.x + fx_mul(r.direction.x as int, t)) as i64,
        y: (r.origin.y + fx_mul(r.direction.y as int, t)) as i64,
        z: (r.origin.z + fx_mul(r.direction.z as int, t)) as i64,
    }
}

impl Ray {
    pub fn new(origin: Vec3, direction: Vec3, time: i64) -> (r: Ray)
        ensures
            r == (Ray { origin, direction, time }),
    {
        Ray { origin, direction, time }
    }

    /// Evaluate the ray at hit-distance parameter `t` (not the time
    /// field).
    pub fn at(&self, t: i64) -> (p: Vec3)
        requires
            wf_ray(*self),
            in_world(t as int),
        ensures
            p == ray_at_spec(*self, t as int),
    {
        proof {
            lemma_at_in_bounds(self.direction.x as int, t as int);
            lemma_at_in_bounds(self.direction.y as int, t as int);
            lemma_at_in_bounds(self.direction.z as int, t as int);
        }
        Vec3 {
            x: self.origin.x + mul_fx(self.direction.x, t),
            y: self.origin.y + mul_fx(self.direction.y, t),
            z: self.origin.z + mul_fx(self.direction.z, t),
        }
    }

    pub fn origin(&self) -> (r: Vec3)
        ensures
            r == self.origin,
    {
        self.origin
    }

    pub fn direction(&self) -> (r: Vec3)
        ensures
            r == self.direction,
    {
        self.direction
    }

    pub fn time(&self) -> (r: i64)
        ensures
            r == self.time,
    {
        self.time
    }
}

/// Bounds on one component of a ray evaluation: the scaled direction
/// term stays far inside the representable range.
pub proof fn lemma_at_in_bounds(d: int, t: int)
    requires
        abs_int(d) <= 8 * MAX_WORLD,
        in_world(t),
    ensures
        abs_int(d * t) <= 8 * (MAX_WORLD as int * MAX_WORLD as int),
        abs_int(fx_mul(d, t)) <= 0x100_0000_0000_0000_00,
{
    assert(abs_int(d * t) <= 8 * (MAX_WORLD as int * MAX_WORLD as int)) by (nonlinear_arith)
        requires
            -8 * MAX_WORLD <= d <= 8 * MAX_WORLD,
            -MAX_WORLD <= t <= MAX_WORLD,
    ;
    crate::fixed::lemma_tdiv_bound(d * t, FX_ONE as int);
    vstd::arithmetic::div_mod::lemma_div_is_ordered(
        abs_int(d * t),
        8 * (MAX_WORLD as int * MAX_WORLD as int),
        FX_ONE as int,
    );
    assert(8 * (MAX_WORLD as int * MAX_WORLD as int) / (FX_ONE as int)
        <= 0x100_0000_0000_0000_00) by (nonlinear_arith)
        requires
            MAX_WORLD == 0x10_0000_0000,
            FX_ONE == 0x100_0000,
    ;
}

} // verus!
