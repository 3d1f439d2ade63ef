//! Vectors over fixed-point scalars, and the random sampling helpers
//! used by materials and the camera.

use vstd::prelude::*;

use crate::fixed::{
    abs_int, div_fx, fx_clamp, fx_div, fx_max, fx_min, fx_mul, in_world, isqrt_u128,
    lemma_tdiv_bound, mul_fx, tdiv, clamp_spec, floor_units, FX_ONE, MAX_WORLD,
};
use crate::rng::RandomSource;

verus! {

/// A three-component vector (point, direction, or color).
#[derive(Clone, Copy, Debug, PartialEq, Eq, Structural)]
pub struct Vec3 {
    pub x: i64,
    pub y: i64,
    pub z: i64,
}

/// A two-component vector (surface coordinates).
#[derive(Clone, Copy, Debug, PartialEq, Eq, Structural)]
pub struct Vec2 {
    pub x: i64,
    pub y: i64,
}

/// An output pixel: one integer per channel.
#[derive(Clone, Copy, Debug, PartialEq, Eq, Structural)]
pub struct Pixel {
    pub x: u32,
    pub y: u32,
    pub z: u32,
}

/// A color is a vector of channel intensities.
pub type Color = Vec3;

/// All three components are within the world-space magnitude bound.
pub open spec fn in_world_vec(v: Vec3) -> bool {
    in_world(v.x as int) && in_world(v.y as int) && in_world(v.z as int)
}

/// The looser bound under which the componentwise operations stay
/// exact: a few world-bounded values may have been added first.
pub open spec fn vec_bounded(v: Vec3) -> bool {
    &&& abs_int(v.x as int) <= 8 * MAX_WORLD
    &&& abs_int(v.y as int) <= 8 * MAX_WORLD
    &&& abs_int(v.z as int) <= 8 * MAX_WORLD
}

/// The fixed-point cross product of two vectors.
pub open spec fn cross_spec(a: Vec3, b: Vec3) -> Vec3 {
    Vec3 {
        x: (fx_mul(a.y as int, b.z as int) - fx_mul(a.z as int, b.y as int)) as i64,
        y: (fx_mul(a.z as int, b.x as int) - fx_mul(a.x as int, b.z as int)) as i64,
        z: (fx_mul(a.x as int, b.y as int) - fx_mul(a.y as int, b.x as int)) as i64,
    }
}

/// The fixed-point dot product of two vectors.
pub open spec fn dot_spec(a: Vec3, b: Vec3) -> int {
    fx_mul(a.x as int, b.x as int) + fx_mul(a.y as int, b.y as int) + fx_mul(
        a.z as int,
        b.z as int,
    )
}

proof fn lemma_mul_fx_world(a: int, b: int)
    requires
        abs_int(a) <= 8 * MAX_WORLD,
        abs_int(b) <= 8 * MAX_WORLD,
    ensures
        abs_int(a * b) <= 64 * (MAX_WORLD as int * MAX_WORLD as int),
        abs_int(fx_mul(a, b)) <= 0x40_0000_0000_0000,
{
    assert(abs_int(a * b) <= 64 * (MAX_WORLD as int * MAX_WORLD as int)) by (nonlinear_arith)
        requires
            -8 * MAX_WORLD <= a <= 8 * MAX_WORLD,
            -8 * MAX_WORLD <= b <= 8 * MAX_WORLD,
    ;
    lemma_tdiv_bound(a * b, FX_ONE as int);
    assert(abs_int(a * b) / (FX_ONE as int) <= 0x40_0000_0000_0000) by {
        vstd::arithmetic::div_mod::lemma_div_is_ordered(
            abs_int(a * b),
            64 * (MAX_WORLD as int * MAX_WORLD as int),
            FX_ONE as int,
        );
        assert(64 * (MAX_WORLD as int * MAX_WORLD as int) / (FX_ONE as int)
            == 0x40_0000_0000_0000) by (nonlinear_arith);
    }
}

impl Vec2 {
    pub fn new(x: i64, y: i64) -> (r: Vec2)
        ensures
            r == (Vec2 { x, y }),
    {
        Vec2 { x, y }
    }
}

impl Vec3 {
    pub fn new(x: i64, y: i64, z: i64) -> (r: Vec3)
        ensures
            r == (Vec3 { x, y, z }),
    {
        Vec3 { x, y, z }
    }

    pub fn add(self, o: Vec3) -> (r: Vec3)
        requires
            abs_int(self.x + o.x) <= i64::MAX,
            abs_int(self.y + o.y) <= i64::MAX,
            abs_int(self.z + o.z) <= i64::MAX,
        ensures
            r.x == self.x + o.x,
            r.y == self.y + o.y,
            r.z == self.z + o.z,
    {
        Vec3 { x: self.x + o.x, y: self.y + o.y, z: self.z + o.z }
    }

    pub fn sub(self, o: Vec3) -> (r: Vec3)
        requires
            abs_int(self.x - o.x) <= i64::MAX,
            abs_int(self.y - o.y) <= i64::MAX,
            abs_int(self.z - o.z) <= i64::MAX,
        ensures
            r.x == self.x - o.x,
            r.y == self.y - o.y,
            r.z == self.z - o.z,
    {
        Vec3 { x: self.x - o.x, y: self.y - o.y, z: self.z - o.z }
    }

    pub fn neg(self) -> (r: Vec3)
        requires
            self.x > i64::MIN,
            self.y > i64::MIN,
            self.z > i64::MIN,
        ensures
            r.x == -self.x,
            r.y == -self.y,
            r.z == -self.z,
    {
        Vec3 { x: -self.x, y: -self.y, z: -self.z }
    }

    /// Scale by a fixed-point scalar.
    pub fn scale(self, s: i64) -> (r: Vec3)
        requires
            vec_bounded(self),
            abs_int(s as int) <= 8 * MAX_WORLD,
        ensures
            r.x == fx_mul(self.x as int, s as int),
            r.y == fx_mul(self.y as int, s as int),
            r.z == fx_mul(self.z as int, s as int),
    {
        proof {
            lemma_mul_fx_world(self.x as int, s as int);
            lemma_mul_fx_world(self.y as int, s as int);
            lemma_mul_fx_world(self.z as int, s as int);
        }
        Vec3 { x: mul_fx(self.x, s), y: mul_fx(self.y, s), z: mul_fx(self.z, s) }
    }

    /// Componentwise fixed-point product (color attenuation).
    pub fn mul_comp(self, o: Vec3) -> (r: Vec3)
        requires
            vec_bounded(self),
            vec_bounded(o),
        ensures
            r.x == fx_mul(self.x as int, o.x as int),
            r.y == fx_mul(self.y as int, o.y as int),
            r.z == fx_mul(self.z as int, o.z as int),
    {
        proof {
            lemma_mul_fx_world(self.x as int, o.x as int);
            lemma_mul_fx_world(self.y as int, o.y as int);
            lemma_mul_fx_world(self.z as int, o.z as int);
        }
        Vec3 { x: mul_fx(self.x, o.x), y: mul_fx(self.y, o.y), z: mul_fx(self.z, o.z) }
    }

    /// Fixed-point cross product.
    pub fn cross(self, o: Vec3) -> (r: Vec3)
        requires
            vec_bounded(self),
            vec_bounded(o),
        ensures
            r == cross_spec(self, o),
    {
        proof {
            lemma_mul_fx_world(self.x as int, o.x as int);
            lemma_mul_fx_world(self.x as int, o.y as int);
            lemma_mul_fx_world(self.x as int, o.z as int);
            lemma_mul_fx_world(self.y as int, o.x as int);
            lemma_mul_fx_world(self.y as int, o.y as int);
            lemma_mul_fx_world(self.y as int, o.z as int);
            lemma_mul_fx_world(self.z as int, o.x as int);
            lemma_mul_fx_world(self.z as int, o.y as int);
            lemma_mul_fx_world(self.z as int, o.z as int);
        }
        Vec3 {
            x: mul_fx(self.y, o.z) - mul_fx(self.z, o.y),
            y: mul_fx(self.z, o.x) - mul_fx(self.x, o.z),
            z: mul_fx(self.x, o.y) - mul_fx(self.y, o.x),
        }
    }

    /// Fixed-point dot product.
    pub fn dot(self, o: Vec3) -> (r: i64)
        requires
            vec_bounded(self),
            vec_bounded(o),
        ensures
            r == dot_spec(self, o),
    {
        proof {
            lemma_mul_fx_world(self.x as int, o.x as int);
            lemma_mul_fx_world(self.y as int, o.y as int);
            lemma_mul_fx_world(self.z as int, o.z as int);
        }
        mul_fx(self.x, o.x) + mul_fx(self.y, o.y) + mul_fx(self.z, o.z)
    }

    /// The squared length as a fixed-point scalar.
    pub fn length_squared(self) -> (r: i64)
        requires
            vec_bounded(self),
        ensures
            r == dot_spec(self, self),
    {
        self.dot(self)
    }

    /// The Euclidean length, rounded down to the fixed-point grid:
    /// the greatest `r` with `r * r <= x*x + y*y + z*z` over raw values.
    pub fn length(self) -> (r: i64)
        requires
            vec_bounded(self),
        ensures
            0 <= r,
            r * r <= self.x * self.x + self.y * self.y + self.z * self.z,
            self.x * self.x + self.y * self.y + self.z * self.z < (r + 1) * (r + 1),
            r <= 0x4_0000_0000_0000,
    {
        proof {
            assert(self.x as int * self.x as int <= 64 * (MAX_WORLD as int * MAX_WORLD as int)
                && self.x as int * self.x as int >= 0) by (nonlinear_arith)
                requires
                    -8 * MAX_WORLD <= self.x <= 8 * MAX_WORLD,
            ;
            assert(self.y as int * self.y as int <= 64 * (MAX_WORLD as int * MAX_WORLD as int)
                && self.y as int * self.y as int >= 0) by (nonlinear_arith)
                requires
                    -8 * MAX_WORLD <= self.y <= 8 * MAX_WORLD,
            ;
            assert(self.z as int * self.z as int <= 64 * (MAX_WORLD as int * MAX_WORLD as int)
                && self.z as int * self.z as int >= 0) by (nonlinear_arith)
                requires
                    -8 * MAX_WORLD <= self.z <= 8 * MAX_WORLD,
            ;
        }
        let sq: i128 = (self.x as i128) * (self.x as i128) + (self.y as i128) * (self.y as i128)
            + (self.z as i128) * (self.z as i128);
        let r = isqrt_u128(sq as u128);
        proof {
            assert(sq >= 0);
            assert(r as int <= 0x4_0000_0000_0000) by (nonlinear_arith)
                requires
                    r as int * r as int <= sq as int,
                    sq as int <= 192 * (MAX_WORLD as int * MAX_WORLD as int),
                    r >= 0,
            ;
        }
        r as i64
    }

    /// Scale to (approximately) unit length; callers must rule out the
    /// zero vector.
    pub fn normalized(self) -> (r: Vec3)
        requires
            vec_bounded(self),
            !(self.x == 0 && self.y == 0 && self.z == 0),
        ensures
            r == normalized_spec(self),
            abs_int(r.x as int) <= FX_ONE,
            abs_int(r.y as int) <= FX_ONE,
            abs_int(r.z as int) <= FX_ONE,
    {
        let len = self.length();
        proof {
            let sq = self.x as int * self.x as int + self.y as int * self.y as int + self.z
                as int * self.z as int;
            lemma_square_nonneg(self.x as int);
            lemma_square_nonneg(self.y as int);
            lemma_square_nonneg(self.z as int);
            lemma_abs_le_sqrt(self.x as int, sq, len as int);
            lemma_abs_le_sqrt(self.y as int, sq, len as int);
            lemma_abs_le_sqrt(self.z as int, sq, len as int);
            if self.x != 0 {
                lemma_square_pos(self.x as int);
            } else if self.y != 0 {
                lemma_square_pos(self.y as int);
            } else {
                lemma_square_pos(self.z as int);
            }
            assert(sq >= 1);
            assert(len >= 1) by (nonlinear_arith)
                requires
                    sq < (len as int + 1) * (len as int + 1),
                    sq >= 1,
                    len >= 0,
            ;
        }
        proof {
            lemma_div_fx_unit(self.x as int, len as int);
            lemma_div_fx_unit(self.y as int, len as int);
            lemma_div_fx_unit(self.z as int, len as int);
            crate::fixed::lemma_floor_sqrt_of(
                self.x as int * self.x as int + self.y as int * self.y as int + self.z as int
                    * self.z as int,
                len as int,
            );
        }
        let rx = div_fx(self.x, len);
        let ry = div_fx(self.y, len);
        let rz = div_fx(self.z, len);
        Vec3 { x: rx, y: ry, z: rz }
    }
}

proof fn lemma_abs_le_sqrt(c: int, sq: int, len: int)
    requires
        c * c <= sq,
        sq < (len + 1) * (len + 1),
        len >= 0,
    ensures
        abs_int(c) <= len,
{
    assert(abs_int(c) <= len) by (nonlinear_arith)
        requires
            c * c <= sq,
            sq < (len + 1) * (len + 1),
            len >= 0,
    ;
}

proof fn lemma_square_nonneg(c: int)
    ensures
        c * c >= 0,
{
    assert(c * c >= 0) by (nonlinear_arith);
}

proof fn lemma_square_pos(c: int)
    requires
        c != 0,
    ensures
        c * c >= 1,
{
    assert(c * c >= 1) by (nonlinear_arith)
        requires
            c != 0,
    ;
}

proof fn lemma_div_fx_unit(c: int, len: int)
    requires
        len >= 1,
        abs_int(c) <= len,
    ensures
        abs_int(fx_div(c, len)) <= FX_ONE,
        abs_int(fx_div(c, len)) <= 0x7fff_ffff_ffff_ffff,
{
    lemma_tdiv_bound(c * FX_ONE, len);
    assert(abs_int(c * FX_ONE) <= len * FX_ONE) by (nonlinear_arith)
        requires
            abs_int(c) <= len,
            FX_ONE > 0,
    ;
    assert(abs_int(c * FX_ONE) / len <= (len * FX_ONE) / len) by {
        vstd::arithmetic::div_mod::lemma_div_is_ordered(
            abs_int(c * FX_ONE),
            len * FX_ONE,
            len,
        );
    }
    assert((len * FX_ONE) / len == FX_ONE) by {
        vstd::arithmetic::div_mod::lemma_div_multiples_vanish(FX_ONE as int, len);
    }
}

/// The normalized vector, exactly as `normalized` computes it: each
/// component divided (in fixed point) by the floor square root of
/// the raw squared length.
pub open spec fn normalized_spec(v: Vec3) -> Vec3 {
    let len = crate::fixed::floor_sqrt(v.x * v.x + v.y * v.y + v.z * v.z);
    Vec3 {
        x: fx_div(v.x as int, len) as i64,
        y: fx_div(v.y as int, len) as i64,
        z: fx_div(v.z as int, len) as i64,
    }
}

/// The zero vector.
pub fn zero_vec3() -> (r: Vec3)
    ensures
        r == (Vec3 { x: 0i64, y: 0i64, z: 0i64 }),
{
    Vec3 { x: 0, y: 0, z: 0 }
}

/// The all-ones vector (fixed-point 1 per component).
pub fn one_vec3() -> (r: Vec3)
    ensures
        r == (Vec3 { x: FX_ONE, y: FX_ONE, z: FX_ONE }),
{
    Vec3 { x: FX_ONE, y: FX_ONE, z: FX_ONE }
}

/// The world up direction.
pub fn up_vec3() -> (r: Vec3)
    ensures
        r == (Vec3 { x: 0i64, y: FX_ONE, z: 0i64 }),
{
    Vec3 { x: 0, y: FX_ONE, z: 0 }
}

/// Componentwise minimum.
pub fn min_vec3(a: &Vec3, b: &Vec3) -> (r: Vec3)
    ensures
        r.x == if a.x <= b.x { a.x as int } else { b.x as int },
        r.y == if a.y <= b.y { a.y as int } else { b.y as int },
        r.z == if a.z <= b.z { a.z as int } else { b.z as int },
{
    Vec3 { x: fx_min(a.x, b.x), y: fx_min(a.y, b.y), z: fx_min(a.z, b.z) }
}

/// Componentwise maximum.
pub fn max_vec3(a: &Vec3, b: &Vec3) -> (r: Vec3)
    ensures
        r.x == if a.x >= b.x { a.x as int } else { b.x as int },
        r.y == if a.y >= b.y { a.y as int } else { b.y as int },
        r.z == if a.z >= b.z { a.z as int } else { b.z as int },
{
    Vec3 { x: fx_max(a.x, b.x), y: fx_max(a.y, b.y), z: fx_max(a.z, b.z) }
}

/// True exactly when every component sits at zero: the fixed-point
/// grid is coarser than any meaningful near-zero threshold.
pub fn is_vec_near_zero(v: &Vec3) -> (r: bool)
    ensures
        r <==> (v.x == 0 && v.y == 0 && v.z == 0),
{
    v.x == 0 && v.y == 0 && v.z == 0
}

/// Componentwise square root of the nonnegative part, used for
/// gamma correction: each output `r` is the greatest fixed-point value
/// with `r * r <= max(c, 0) * FX_ONE`.
pub fn sqrt_vec(v: &Vec3) -> (r: Vec3)
    requires
        in_world_vec(*v),
    ensures
        sqrt_component(v.x as int, r.x as int),
        sqrt_component(v.y as int, r.y as int),
        sqrt_component(v.z as int, r.z as int),
{
    Vec3 { x: sqrt_fx(v.x), y: sqrt_fx(v.y), z: sqrt_fx(v.z) }
}

/// `r` is the floor square root of `max(c, 0)` as a fixed-point value.
pub open spec fn sqrt_component(c: int, r: int) -> bool {
    &&& r >= 0
    &&& r * r <= if c >= 0 { c * FX_ONE } else { 0 }
    &&& (if c >= 0 { c * FX_ONE } else { 0 }) < (r + 1) * (r + 1)
}

fn sqrt_fx(c: i64) -> (r: i64)
    requires
        in_world(c as int),
    ensures
        sqrt_component(c as int, r as int),
{
    if c <= 0 {
        return 0;
    }
    proof {
        assert(c as int * FX_ONE as int <= MAX_WORLD as int * FX_ONE as int) by (nonlinear_arith)
            requires
                0 < c as int <= MAX_WORLD as int,
        ;
    }
    let scaled: u128 = (c as u128) * (FX_ONE as u128);
    let r = isqrt_u128(scaled);
    proof {
        assert(r as int <= 0x1_0000_0000) by (nonlinear_arith)
            requires
                r as int * r as int <= scaled as int,
                scaled as int <= MAX_WORLD as int * FX_ONE as int,
                r >= 0,
        ;
    }
    r as i64
}

/// Clamp both components into `[lo, hi]`.
pub fn clamp_vec2(v: &Vec2, lo: i64, hi: i64) -> (r: Vec2)
    requires
        lo <= hi,
    ensures
        r.x == clamp_spec(v.x as int, lo as int, hi as int),
        r.y == clamp_spec(v.y as int, lo as int, hi as int),
{
    Vec2 { x: fx_clamp(v.x, lo, hi), y: fx_clamp(v.y, lo, hi) }
}

/// Clamp all components into `[lo, hi]`.
pub fn clamp_vec3(v: &Vec3, lo: i64, hi: i64) -> (r: Vec3)
    requires
        lo <= hi,
    ensures
        r.x == clamp_spec(v.x as int, lo as int, hi as int),
        r.y == clamp_spec(v.y as int, lo as int, hi as int),
        r.z == clamp_spec(v.z as int, lo as int, hi as int),
{
    Vec3 { x: fx_clamp(v.x, lo, hi), y: fx_clamp(v.y, lo, hi), z: fx_clamp(v.z, lo, hi) }
}

/// Quantize a color vector to integer channels (floor of each
/// component in whole units, clamped to the `u32` range).
pub fn color_to_pixel(v: &Color) -> (r: Pixel)
    requires
        v.x > i64::MIN,
        v.y > i64::MIN,
        v.z > i64::MIN,
    ensures
        r.x == clamp_spec((v.x as int) / (FX_ONE as int), 0, 0xffff_ffff),
        r.y == clamp_spec((v.y as int) / (FX_ONE as int), 0, 0xffff_ffff),
        r.z == clamp_spec((v.z as int) / (FX_ONE as int), 0, 0xffff_ffff),
{
    Pixel {
        x: fx_clamp(floor_units(v.x), 0, 0xffff_ffff) as u32,
        y: fx_clamp(floor_units(v.y), 0, 0xffff_ffff) as u32,
        z: fx_clamp(floor_units(v.z), 0, 0xffff_ffff) as u32,
    }
}

/// A vector with both components drawn uniformly from `[lo, hi)`.
pub fn random_vec2(rng: &mut RandomSource, lo: i64, hi: i64) -> (r: Vec2)
    requires
        lo < hi,
    ensures
        lo <= r.x < hi,
        lo <= r.y < hi,
{
    let x = rng.next_in(lo, hi);
    let y = rng.next_in(lo, hi);
    Vec2 { x, y }
}

/// A vector with all components drawn uniformly from `[lo, hi)`.
pub fn random_vec3(rng: &mut RandomSource, lo: i64, hi: i64) -> (r: Vec3)
    requires
        lo < hi,
    ensures
        lo <= r.x < hi,
        lo <= r.y < hi,
        lo <= r.z < hi,
{
    let x = rng.next_in(lo, hi);
    let y = rng.next_in(lo, hi);
    let z = rng.next_in(lo, hi);
    Vec3 { x, y, z }
}

/// A nonzero vector inside the unit ball, found by rejection
/// sampling; a bounded number of attempts, then a fixed fallback.
pub fn random_sphere_vec(rng: &mut RandomSource) -> (r: Vec3)
    ensures
        abs_int(r.x as int) < FX_ONE,
        abs_int(r.y as int) < FX_ONE,
        abs_int(r.z as int) < FX_ONE,
        dot_spec(r, r) < FX_ONE,
        !(r.x == 0 && r.y == 0 && r.z == 0),
{
    let mut tries: usize = 0;
    while tries < 64
        invariant
            tries <= 64,
        decreases 64 - tries,
    {
        let attempt = random_vec3(rng, -FX_ONE + 1, FX_ONE);
        proof {
            assert(in_world_vec(attempt));
        }
        let sq = attempt.length_squared();
        if sq < FX_ONE && !(attempt.x == 0 && attempt.y == 0 && attempt.z == 0) {
            return attempt;
        }
        tries = tries + 1;
    }
    let fallback = Vec3 { x: FX_ONE / 2, y: 0, z: 0 };
    proof {
        reveal_fallback_dot(fallback);
    }
    fallback
}

proof fn reveal_fallback_dot(v: Vec3)
    requires
        v == (Vec3 { x: 0x80_0000i64, y: 0i64, z: 0i64 }),
    ensures
        dot_spec(v, v) < FX_ONE,
{
    assert(dot_spec(v, v) == tdiv(0x80_0000int * 0x80_0000int, FX_ONE as int));
    assert(0x80_0000int * 0x80_0000int == 70368744177664) by (nonlinear_arith);
    assert(tdiv(70368744177664, FX_ONE as int) == 4194304);
}

/// A unit vector drawn from the ball-rejection sampler.
pub fn random_unit_sphere_vec(rng: &mut RandomSource) -> (r: Vec3)
    ensures
        abs_int(r.x as int) <= FX_ONE,
        abs_int(r.y as int) <= FX_ONE,
        abs_int(r.z as int) <= FX_ONE,
{
    let v = random_sphere_vec(rng);
    v.normalized()
}

/// A unit vector from uniform box sampling.
pub fn random_unit_vec3(rng: &mut RandomSource) -> (r: Vec3)
    ensures
        abs_int(r.x as int) <= FX_ONE,
        abs_int(r.y as int) <= FX_ONE,
        abs_int(r.z as int) <= FX_ONE,
{
    let v = random_vec3(rng, 1, FX_ONE);
    v.normalized()
}

/// A ball vector flipped into the hemisphere around `normal`.
pub fn random_hemisphere_vec(rng: &mut RandomSource, normal: Vec3) -> (r: Vec3)
    requires
        in_world_vec(normal),
    ensures
        abs_int(r.x as int) < FX_ONE,
        abs_int(r.y as int) < FX_ONE,
        abs_int(r.z as int) < FX_ONE,
        dot_spec(r, normal) >= 0,
        !(r.x == 0 && r.y == 0 && r.z == 0),
{
    let v = random_sphere_vec(rng);
    proof {
        assert(in_world_vec(v));
    }
    let d = v.dot(normal);
    if d < 0 {
        proof {
            lemma_dot_neg(v, normal);
        }
        v.neg()
    } else {
        v
    }
}

proof fn lemma_dot_neg(a: Vec3, b: Vec3)
    requires
        a.x > i64::MIN,
        a.y > i64::MIN,
        a.z > i64::MIN,
    ensures
        dot_spec(Vec3 { x: -a.x as i64, y: -a.y as i64, z: -a.z as i64 }, b) == -dot_spec(a, b),
{
    lemma_fx_mul_neg(a.x as int, b.x as int);
    lemma_fx_mul_neg(a.y as int, b.y as int);
    lemma_fx_mul_neg(a.z as int, b.z as int);
}

proof fn lemma_fx_mul_neg(a: int, b: int)
    ensures
        fx_mul(-a, b) == -fx_mul(a, b),
{
    assert((-a) * b == -(a * b)) by (nonlinear_arith);
}

/// A unit vector in the hemisphere around `normal`.
pub fn random_unit_hemisphere_vec(rng: &mut RandomSource, normal: Vec3) -> (r: Vec3)
    requires
        in_world_vec(normal),
    ensures
        abs_int(r.x as int) <= FX_ONE,
        abs_int(r.y as int) <= FX_ONE,
        abs_int(r.z as int) <= FX_ONE,
{
    let v = random_hemisphere_vec(rng, normal);
    v.normalized()
}

/// A point in the unit disk (rejection sampling, bounded attempts):
/// the fixed-point squared radius stays below one.
pub fn random_unit_disk_vec(rng: &mut RandomSource) -> (r: Vec2)
    ensures
        abs_int(r.x as int) < FX_ONE,
        abs_int(r.y as int) < FX_ONE,
        fx_mul(r.x as int, r.x as int) + fx_mul(r.y as int, r.y as int) < FX_ONE,
{
    let mut tries: usize = 0;
    while tries < 64
        invariant
            tries <= 64,
        decreases 64 - tries,
    {
        let attempt = random_vec2(rng, -FX_ONE + 1, FX_ONE);
        proof {
            lemma_mul_fx_world(attempt.x as int, attempt.x as int);
            lemma_mul_fx_world(attempt.y as int, attempt.y as int);
        }
        let sq = mul_fx(attempt.x, attempt.x) + mul_fx(attempt.y, attempt.y);
        if sq < FX_ONE {
            return attempt;
        }
        tries = tries + 1;
    }
    Vec2 { x: 0, y: 0 }
}

/// A jitter offset inside the half-open unit square centered at the
/// origin (z fixed at zero).
pub fn random_unit_square_vec(rng: &mut RandomSource) -> (r: Vec3)
    ensures
        -FX_ONE / 2 <= r.x < FX_ONE / 2,
        -FX_ONE / 2 <= r.y < FX_ONE / 2,
        r.z == 0,
{
    let x = rng.next_in(0, FX_ONE);
    let y = rng.next_in(0, FX_ONE);
    Vec3 { x: x - FX_ONE / 2, y: y - FX_ONE / 2, z: 0 }
}

/// A random pixel with channels drawn from `[lo, hi)`.
pub fn random_color_range(rng: &mut RandomSource, lo: u32, hi: u32) -> (r: Pixel)
    requires
        lo < hi,
    ensures
        lo <= r.x < hi,
        lo <= r.y < hi,
        lo <= r.z < hi,
{
    let x = rng.next_index(lo as usize, hi as usize) as u32;
    let y = rng.next_index(lo as usize, hi as usize) as u32;
    let z = rng.next_index(lo as usize, hi as usize) as u32;
    Pixel { x, y, z }
}

/// A random pixel with 8-bit channels.
pub fn random_color(rng: &mut RandomSource) -> (r: Pixel)
    ensures
        r.x < 255,
        r.y < 255,
        r.z < 255,
{
    random_color_range(rng, 0, 255)
}

} // verus!
