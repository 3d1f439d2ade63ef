//! Fixed-point scalar arithmetic.
//!
//! Every scalar quantity in the library (coordinates, colors, ray
//! parameters) is an `i64` holding a real number scaled by `FX_ONE`
//! (binary fixed point with 24 fractional bits).  All operations here
//! have exact contracts over mathematical integers.

use vstd::prelude::*;

verus! {

/// The fixed-point unit: the representation of the real number 1.
pub const FX_ONE: i64 = 0x100_0000;

/// Magnitude bound on world-space quantities (coordinates, colors,
/// direction components, accepted hit parameters).  Squares of small
/// multiples of such values stay exact in 128 bits, and products of
/// two such values divided by `FX_ONE` stay far inside `i64`.
pub const MAX_WORLD: i64 = 0x10_0000_0000;

/// Sentinel for an unbounded upper ray-parameter: larger than any
/// accepted hit parameter, still safe in 128-bit cross products.
pub const T_INF: i64 = 0x4000_0000_0000_0000;

/// Truncated division (rounds toward zero), for positive divisors.
pub open spec fn tdiv(a: int, b: int) -> int {
    if a >= 0 {
        a / b
    } else {
        -((-a) / b)
    }
}

/// The product of two fixed-point numbers, as the mathematical value
/// the executable multiplication returns.
pub open spec fn fx_mul(a: int, b: int) -> int {
    tdiv(a * b, FX_ONE as int)
}

/// The quotient of two fixed-point numbers (truncated), defined for
/// nonzero divisors.
pub open spec fn fx_div(a: int, b: int) -> int {
    if b > 0 {
        tdiv(a * FX_ONE, b)
    } else {
        -tdiv(a * FX_ONE, -b)
    }
}

/// `x` is within the world-space magnitude bound.
pub open spec fn in_world(x: int) -> bool {
    -MAX_WORLD <= x <= MAX_WORLD
}

proof fn lemma_div_bound_nonneg(a: int, b: int)
    requires
        a >= 0,
        b > 0,
    ensures
        0 <= a / b <= a,
        b * (a / b) <= a,
{
    vstd::arithmetic::div_mod::lemma_div_pos_is_pos(a, b);
    vstd::arithmetic::div_mod::lemma_fundamental_div_mod(a, b);
    vstd::arithmetic::div_mod::lemma_mod_bound(a, b);
    let q = a / b;
    assert(q <= b * q) by (nonlinear_arith)
        requires
            q >= 0,
            b >= 1,
    ;
}

/// Truncated division never exceeds the dividend in magnitude.
pub proof fn lemma_tdiv_bound(a: int, b: int)
    requires
        b > 0,
    ensures
        -abs_int(a) <= tdiv(a, b) <= abs_int(a),
        b * tdiv(a, b) <= abs_int(a),
        abs_int(tdiv(a, b)) <= abs_int(a) / b,
{
    if a >= 0 {
        lemma_div_bound_nonneg(a, b);
    } else {
        lemma_div_bound_nonneg(-a, b);
        let q = (-a) / b;
        assert(b * q >= 0) by (nonlinear_arith)
            requires
                q >= 0,
                b > 0,
        ;
        assert(b * tdiv(a, b) == -(b * q)) by (nonlinear_arith)
            requires
                tdiv(a, b) == -q,
        ;
    }
}

/// Truncated division is monotone in the dividend.
pub proof fn lemma_tdiv_mono(a1: int, a2: int, b: int)
    requires
        b > 0,
        a1 <= a2,
    ensures
        tdiv(a1, b) <= tdiv(a2, b),
{
    if a1 >= 0 {
        vstd::arithmetic::div_mod::lemma_div_is_ordered(a1, a2, b);
    } else if a2 < 0 {
        vstd::arithmetic::div_mod::lemma_div_is_ordered(-a2, -a1, b);
    } else {
        vstd::arithmetic::div_mod::lemma_div_pos_is_pos(-a1, b);
        vstd::arithmetic::div_mod::lemma_div_pos_is_pos(a2, b);
    }
}

/// Absolute value over mathematical integers.
pub open spec fn abs_int(x: int) -> int {
    if x >= 0 {
        x
    } else {
        -x
    }
}

/// Truncated division of an `i128` by a positive divisor.
pub fn div_trunc_i128(a: i128, b: i128) -> (r: i128)
    requires
        b > 0,
        a > i128::MIN,
    ensures
        r == tdiv(a as int, b as int),
{
    if a >= 0 {
        let q: u128 = (a as u128) / (b as u128);
        proof {
            lemma_div_bound_nonneg(a as int, b as int);
        }
        q as i128
    } else {
        let q: u128 = ((-a) as u128) / (b as u128);
        proof {
            lemma_div_bound_nonneg(-(a as int), b as int);
        }
        -(q as i128)
    }
}

/// Fixed-point multiplication: `a * b` rescaled, rounded toward zero.
pub fn mul_fx(a: i64, b: i64) -> (r: i64)
    requires
        abs_int(a as int * b as int) <= 0x7fff_ffff_ffff_ffff * (FX_ONE as int),
    ensures
        r == fx_mul(a as int, b as int),
{
    let p: i128 = (a as i128) * (b as i128);
    let q = div_trunc_i128(p, FX_ONE as i128);
    proof {
        lemma_tdiv_bound(p as int, FX_ONE as int);
    }
    q as i64
}

/// Fixed-point division: `a / b` rescaled, rounded toward zero.
pub fn div_fx(a: i64, b: i64) -> (r: i64)
    requires
        b != 0,
        abs_int(fx_div(a as int, b as int)) <= 0x7fff_ffff_ffff_ffff,
    ensures
        r == fx_div(a as int, b as int),
{
    proof {
        assert((a as i128) as int * (FX_ONE as i128) as int <= 0x8000_0000_0000_0000 * 0x100_0000
            && (a as i128) as int * (FX_ONE as i128) as int >= -0x8000_0000_0000_0000
            * 0x100_0000) by (nonlinear_arith)
            requires
                -0x8000_0000_0000_0000 <= (a as i128) as int <= 0x8000_0000_0000_0000,
                (FX_ONE as i128) as int == 0x100_0000,
        ;
    }
    let p: i128 = (a as i128) * (FX_ONE as i128);
    let q = if b > 0 {
        div_trunc_i128(p, b as i128)
    } else {
        let n = div_trunc_i128(p, -(b as i128));
        proof {
            lemma_tdiv_bound(p as int, -(b as int));
        }
        -n
    };
    q as i64
}

/// Integer square root: the greatest `r` with `r * r <= x`.
pub fn isqrt_u128(x: u128) -> (r: u64)
    ensures
        (r as int) * (r as int) <= x as int,
        x < ((r as int) + 1) * ((r as int) + 1),
{
    let mut lo: u128 = 0;
    let mut hi: u128 = 0xffff_ffff_ffff_ffff;
    if x >= 0xffff_ffff_ffff_ffff * 0xffff_ffff_ffff_ffff {
        return 0xffff_ffff_ffff_ffff;
    }
    while lo < hi
        invariant
            lo <= hi <= 0xffff_ffff_ffff_ffff,
            (lo as int) * (lo as int) <= x as int,
            x < ((hi as int) + 1) * ((hi as int) + 1),
        decreases hi - lo,
    {
        let mid: u128 = lo + (hi - lo + 1) / 2;
        proof {
            assert(lo < mid <= hi);
            assert(mid as int * mid as int <= 0xffff_ffff_ffff_ffff * 0xffff_ffff_ffff_ffff)
                by (nonlinear_arith)
                requires
                    0 <= mid as int <= 0xffff_ffff_ffff_ffff,
            ;
        }
        if mid * mid <= x {
            lo = mid;
        } else {
            proof {
                assert(x < mid * mid);
            }
            hi = mid - 1;
        }
    }
    lo as u64
}

/// Floor (Euclidean) division by a positive divisor.
pub fn floor_div(x: i64, d: i64) -> (r: i64)
    requires
        x > i64::MIN,
        d > 0,
    ensures
        r == (x as int) / (d as int),
{
    if x >= 0 {
        x / d
    } else {
        let m = (-x) % d;
        let q = (-x) / d;
        proof {
            let xi = x as int;
            let di = d as int;
            vstd::arithmetic::div_mod::lemma_fundamental_div_mod(-xi, di);
            vstd::arithmetic::div_mod::lemma_mod_bound(-xi, di);
            lemma_div_bound_nonneg(-xi, di);
            assert((-(q as int)) * di == -(di * (q as int)) && (-(q as int) - 1) * di == -(di * (
            q as int)) - di) by (nonlinear_arith);
            if m == 0 {
                vstd::arithmetic::div_mod::lemma_fundamental_div_mod_converse(
                    xi,
                    di,
                    -(q as int),
                    0,
                );
            } else {
                vstd::arithmetic::div_mod::lemma_fundamental_div_mod_converse(
                    xi,
                    di,
                    -(q as int) - 1,
                    di - (m as int),
                );
            }
        }
        if m == 0 {
            -q
        } else {
            -q - 1
        }
    }
}

/// Floor of a fixed-point value, in whole units.
pub fn floor_units(x: i64) -> (r: i64)
    requires
        x > i64::MIN,
    ensures
        r == (x as int) / (FX_ONE as int),
{
    floor_div(x, FX_ONE)
}

/// Minimum of two fixed-point scalars.
pub fn fx_min(a: i64, b: i64) -> (r: i64)
    ensures
        r == if a <= b { a as int } else { b as int },
{
    if a <= b {
        a
    } else {
        b
    }
}

/// Maximum of two fixed-point scalars.
pub fn fx_max(a: i64, b: i64) -> (r: i64)
    ensures
        r == if a >= b { a as int } else { b as int },
{
    if a >= b {
        a
    } else {
        b
    }
}

/// Clamp into `[lo, hi]`.
pub fn fx_clamp(x: i64, lo: i64, hi: i64) -> (r: i64)
    requires
        lo <= hi,
    ensures
        r == clamp_spec(x as int, lo as int, hi as int),
{
    if x < lo {
        lo
    } else if x > hi {
        hi
    } else {
        x
    }
}

/// The clamped value of `x` in `[lo, hi]`.
pub open spec fn clamp_spec(x: int, lo: int, hi: int) -> int {
    if x < lo {
        lo
    } else if x > hi {
        hi
    } else {
        x
    }
}

/// `r` is the nonnegative floor square root of `x`.
pub open spec fn is_floor_sqrt(x: int, r: int) -> bool {
    r >= 0 && r * r <= x && x < (r + 1) * (r + 1)
}

/// The floor square root of a nonnegative integer.
pub open spec fn floor_sqrt(x: int) -> int {
    choose|r: int| is_floor_sqrt(x, r)
}

/// The floor square root is unique, so any witness pins it down.
pub proof fn lemma_floor_sqrt_of(x: int, r: int)
    requires
        is_floor_sqrt(x, r),
    ensures
        floor_sqrt(x) == r,
{
    assert(exists|c: int| is_floor_sqrt(x, c)) by {
        assert(is_floor_sqrt(x, r));
    }
    let c = floor_sqrt(x);
    assert(is_floor_sqrt(x, c));
    assert(c == r) by (nonlinear_arith)
        requires
            c >= 0,
            r >= 0,
            c * c <= x,
            x < (c + 1) * (c + 1),
            r * r <= x,
            x < (r + 1) * (r + 1),
    ;
}

/// Fixed-point pi.
pub const PI_FX: i64 = 52707178;

/// Fixed-point pi/2.
pub const HALF_PI_FX: i64 = 26353589;

/// Fixed-point 2*pi.
pub const TAU_FX: i64 = 105414356;

/// Fixed-point ln 2.
pub const LN2_FX: i64 = 11629080;

/// The rational half-wave sine value, exactly as the executable
/// routine computes it on `[0, pi]`.
pub open spec fn sin_half_wave_spec(z: int) -> int {
    let a = z * (PI_FX - z);
    let n = 16 * a;
    let den = 5 * (PI_FX as int) * (PI_FX as int) - 4 * a;
    tdiv(n * FX_ONE, den)
}

/// The fixed-point sine value, exactly as `sin_fx` computes it:
/// range reduction by whole turns, then the rational half wave with
/// the sign of the half period.
pub open spec fn sin_fx_spec(x: int) -> int {
    let q = x / (TAU_FX as int);
    let m = x - q * TAU_FX;
    if m < PI_FX {
        sin_half_wave_spec(m)
    } else {
        -sin_half_wave_spec(m - PI_FX)
    }
}

/// Rational sine approximation on `[0, pi]`: nonnegative, at most
/// one, and strictly positive away from the interval ends.
fn sin_half_wave(z: i64) -> (r: i64)
    requires
        0 <= z <= PI_FX,
    ensures
        r == sin_half_wave_spec(z as int),
        0 <= r <= FX_ONE,
        4 <= z <= PI_FX - 4 ==> r >= 1,
        z == 0 ==> r == 0,
{
    let zi: i128 = z as i128;
    let p: i128 = PI_FX as i128;
    proof {
        assert(zi as int * (p as int - zi as int) >= 0 && 4 * (zi as int * (p as int - zi as int))
            <= p as int * p as int) by (nonlinear_arith)
            requires
                0 <= zi as int <= p as int,
                p as int == 52707178,
        ;
    }
    let a: i128 = zi * (p - zi);
    let n: i128 = 16 * a;
    let den: i128 = 5 * p * p - 4 * a;
    proof {
        assert(n as int * FX_ONE as int >= 0 && n as int <= den as int && den > 0 && n as int
            * FX_ONE as int <= den as int * FX_ONE as int) by (nonlinear_arith)
            requires
                n as int == 16 * (a as int),
                den as int == 5 * (p as int * p as int) - 4 * a,
                a >= 0,
                4 * (a as int) <= p as int * p as int,
                p as int == 52707178,
                FX_ONE as int == 0x100_0000,
        ;
    }
    let r = div_trunc_i128(n * (FX_ONE as i128), den);
    proof {
        if z == 0 {
            assert(a == 0) by (nonlinear_arith)
                requires
                    a as int == zi as int * (p as int - zi as int),
                    zi == 0,
            ;
        }
        lemma_div_bound_nonneg(n as int * FX_ONE as int, den as int);
        vstd::arithmetic::div_mod::lemma_div_is_ordered(
            n as int * FX_ONE as int,
            den as int * FX_ONE as int,
            den as int,
        );
        vstd::arithmetic::div_mod::lemma_div_multiples_vanish(FX_ONE as int, den as int);
        if 4 <= z && z <= PI_FX - 4 {
            assert((zi as int - 4) * ((p as int - 4) - zi as int) >= 0) by (nonlinear_arith)
                requires
                    4 <= zi as int <= p as int - 4,
            ;
            assert(a as int >= 4 * (p as int - 4)) by (nonlinear_arith)
                requires
                    (zi as int - 4) * ((p as int - 4) - zi as int) >= 0,
                    a as int == zi as int * (p as int - zi as int),
            ;
            assert(n as int * FX_ONE as int >= den as int) by (nonlinear_arith)
                requires
                    n as int == 16 * (a as int),
                    a as int >= 4 * (p as int - 4),
                    den as int <= 5 * (p as int * p as int),
                    p as int == 52707178,
                    FX_ONE as int == 0x100_0000,
            ;
            vstd::arithmetic::div_mod::lemma_div_is_ordered(
                den as int,
                n as int * FX_ONE as int,
                den as int,
            );
            vstd::arithmetic::div_mod::lemma_div_by_self(den as int);
        }
    }
    r as i64
}

/// Fixed-point sine with range reduction; exact zero at zero, the
/// sign follows the half wave, and away from the wave's ends the
/// magnitude is bounded away from zero.
pub fn sin_fx(x: i64) -> (r: i64)
    requires
        -0x8000_0000_0000 <= x <= 0x8000_0000_0000,
    ensures
        r == sin_fx_spec(x as int),
        -FX_ONE <= r <= FX_ONE,
        x == 0 ==> r == 0,
        0 <= x <= PI_FX ==> r >= 0,
        4 <= x <= PI_FX - 4 ==> r >= 1,
        PI_FX <= x < TAU_FX ==> r <= 0,
{
    let q = floor_div(x, TAU_FX);
    proof {
        vstd::arithmetic::div_mod::lemma_fundamental_div_mod(x as int, TAU_FX as int);
        vstd::arithmetic::div_mod::lemma_mod_bound(x as int, TAU_FX as int);
        lemma_tdiv_bound(x as int, TAU_FX as int);
        assert(abs_int(q as int * TAU_FX as int) <= 0x8000_0000_0000 * TAU_FX) by (nonlinear_arith)
            requires
                abs_int(q as int) <= 0x8000_0000_0000,
                TAU_FX == 105414356,
        ;
        if 0 <= x && x < TAU_FX {
            vstd::arithmetic::div_mod::lemma_fundamental_div_mod_converse(
                x as int,
                TAU_FX as int,
                0,
                x as int,
            );
        }
    }
    let m = x - q * TAU_FX;
    if m < PI_FX {
        sin_half_wave(m)
    } else {
        let s = sin_half_wave(m - PI_FX);
        -s
    }
}

/// Fixed-point cosine, as the sine shifted by a quarter turn.
pub fn cos_fx(x: i64) -> (r: i64)
    requires
        -0x2000_0000_0000 <= x <= 0x2000_0000_0000,
    ensures
        r == sin_fx_spec(x + HALF_PI_FX),
        -FX_ONE <= r <= FX_ONE,
        4 - HALF_PI_FX <= x <= HALF_PI_FX - 4 ==> r >= 1,
{
    sin_fx(x + HALF_PI_FX)
}

/// Fixed-point approximation of `-ln(u)` for `u` in `(0, 1]`:
/// nonnegative, zero at one, bounded.
pub fn neg_ln_fx(u: i64) -> (r: i64)
    requires
        1 <= u <= FX_ONE,
    ensures
        0 <= r <= 32 * FX_ONE,
        u == FX_ONE ==> r == 0,
{
    let mut v = u;
    let mut k: i64 = 0;
    while k < 25 && v < 0x80_0000
        invariant
            1 <= v <= FX_ONE,
            0 <= k <= 25,
            u == FX_ONE ==> (v == FX_ONE && k == 0),
        decreases 25 - k,
    {
        v = v * 2;
        k = k + 1;
    }
    let w = FX_ONE - v;
    proof {
        assert(0 <= w * w <= 0x100_0000 * 0x100_0000) by (nonlinear_arith)
            requires
                0 <= w as int <= 0x100_0000,
        ;
        lemma_tdiv_bound(w as int * w as int, FX_ONE as int);
    }
    let w2 = mul_fx(w, w);
    proof {
        assert(0 <= w2 as int * w as int <= 0x100_0000 * 0x100_0000) by (nonlinear_arith)
            requires
                0 <= w2 as int <= 0x100_0000,
                0 <= w as int <= 0x100_0000,
        ;
        lemma_tdiv_bound(w2 as int * w as int, FX_ONE as int);
        lemma_tdiv_bound(w2 as int, 2);
        lemma_tdiv_bound(w as int * w as int, FX_ONE as int);
    }
    let w3 = mul_fx(w2, w);
    proof {
        lemma_tdiv_bound(w3 as int, 3);
    }
    k * LN2_FX + w + w2 / 2 + w3 / 3
}

/// Absolute value, for inputs above `i64::MIN`.
pub fn fx_abs(x: i64) -> (r: i64)
    requires
        x > i64::MIN,
    ensures
        r == abs_int(x as int),
{
    if x >= 0 {
        x
    } else {
        -x
    }
}

} // verus!
