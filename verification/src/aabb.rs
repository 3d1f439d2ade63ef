//! Axis-aligned bounding boxes and the slab intersection test.
//!
//! The ray/box test is exact: it decides whether some rational ray
//! parameter strictly inside the query range puts the ray strictly
//! inside the box on every axis, with no rounding.  Comparisons of
//! rational bounds are done by 128-bit cross multiplication.

use vstd::prelude::*;

use crate::fixed::{abs_int, FX_ONE, MAX_WORLD, T_INF};
use crate::ray::{wf_ray, Ray};
use crate::vector::Vec3;

verus! {

/// Padding applied to degenerate (flat) axes, about `1e-4` in fixed
/// point, so flat geometry still gets a usable box.
pub const AABB_PAD: i64 = 1678;

/// Magnitude bound on box coordinates: wide enough for moving
/// geometry built from world-bounded inputs, narrow enough that every
/// 128-bit cross product in the slab test stays exact.
pub const MAX_BOX: i64 = 3 * MAX_WORLD;

/// One axis extent of a box.
#[derive(Clone, Copy, Debug, PartialEq, Eq, Structural)]
pub struct Interval {
    pub lo: i64,
    pub hi: i64,
}

/// An axis-aligned box: one interval per axis.
#[derive(Clone, Copy, Debug, PartialEq, Eq, Structural)]
pub struct AABB {
    pub x: Interval,
    pub y: Interval,
    pub z: Interval,
}

/// Interval coordinates are ordered and within box bounds.
pub open spec fn wf_iv(iv: Interval) -> bool {
    &&& -MAX_BOX <= iv.lo
    &&& iv.lo <= iv.hi
    &&& iv.hi <= MAX_BOX
}

/// Boxes are well-formed on every axis.
pub open spec fn wf_aabb(b: AABB) -> bool {
    wf_iv(b.x) && wf_iv(b.y) && wf_iv(b.z)
}

/// `outer` spans at least `inner` on one axis.
pub open spec fn iv_contains(outer: Interval, inner: Interval) -> bool {
    outer.lo <= inner.lo && inner.hi <= outer.hi
}

/// `outer` spans at least `inner` on every axis.
pub open spec fn box_contains(outer: AABB, inner: AABB) -> bool {
    iv_contains(outer.x, inner.x) && iv_contains(outer.y, inner.y) && iv_contains(
        outer.z,
        inner.z,
    )
}

/// The rational `p1/q1` is strictly below `p2/q2` (for positive
/// denominators), by cross multiplication.
pub open spec fn rat_lt(p1: int, q1: int, p2: int, q2: int) -> bool {
    p1 * q2 < p2 * q1
}

/// At ray parameter `tn/td` (with `td > 0`) the ray coordinate
/// `o + (tn/td) * d` lies strictly inside the axis interval, stated
/// with both sides multiplied by `td`.
pub open spec fn axis_inside(iv: Interval, o: int, d: int, tn: int, td: int) -> bool {
    iv.lo * td < o * td + tn * d && o * td + tn * d < iv.hi * td
}

/// The ray point at parameter `tn/td` is strictly inside the box.
pub open spec fn point_inside(b: AABB, r: Ray, tn: int, td: int) -> bool {
    &&& axis_inside(b.x, r.origin.x as int, r.direction.x as int, tn, td)
    &&& axis_inside(b.y, r.origin.y as int, r.direction.y as int, tn, td)
    &&& axis_inside(b.z, r.origin.z as int, r.direction.z as int, tn, td)
}

/// `tn/td` is strictly inside the query range `(t0, t1)` (the range
/// ends are fixed-point values, so their denominator is `FX_ONE`).
pub open spec fn t_in_range(t0: int, t1: int, tn: int, td: int) -> bool {
    t0 * td < tn * FX_ONE && tn * FX_ONE < t1 * td
}

/// The ray parameter `tn/td` witnesses an intersection of ray and box
/// within the range.
pub open spec fn hits_at(b: AABB, r: Ray, t0: int, t1: int, tn: int, td: int) -> bool {
    t_in_range(t0, t1, tn, td) && point_inside(b, r, tn, td)
}

/// The ray's parametric line crosses the open box volume at some
/// rational parameter strictly inside `(t0, t1)`.
pub open spec fn ray_hits_box(b: AABB, r: Ray, t0: int, t1: int) -> bool {
    exists|tn: int, td: int| td > 0 && #[trigger] hits_at(b, r, t0, t1, tn, td)
}

/// An interval with its ends in ascending order.
pub open spec fn norm_iv(iv: Interval) -> Interval {
    if iv.lo < iv.hi {
        iv
    } else {
        Interval { lo: iv.hi, hi: iv.lo }
    }
}

/// An interval padded outward when narrower than the degeneracy
/// threshold.
pub open spec fn pad_iv(iv: Interval) -> Interval {
    if iv.hi - iv.lo < AABB_PAD {
        Interval { lo: (iv.lo - AABB_PAD) as i64, hi: (iv.hi + AABB_PAD) as i64 }
    } else {
        iv
    }
}

/// Union of two intervals.
pub open spec fn combine_iv(a: Interval, b: Interval) -> Interval {
    Interval {
        lo: if a.lo <= b.lo { a.lo } else { b.lo },
        hi: if a.hi >= b.hi { a.hi } else { b.hi },
    }
}

/// A box moved by an offset.
pub open spec fn shifted_spec(b: AABB, v: Vec3) -> AABB {
    AABB {
        x: Interval { lo: (b.x.lo + v.x) as i64, hi: (b.x.hi + v.x) as i64 },
        y: Interval { lo: (b.y.lo + v.y) as i64, hi: (b.y.hi + v.y) as i64 },
        z: Interval { lo: (b.z.lo + v.z) as i64, hi: (b.z.hi + v.z) as i64 },
    }
}

/// Componentwise union of two boxes.
pub open spec fn combine_spec(a: AABB, b: AABB) -> AABB {
    AABB { x: combine_iv(a.x, b.x), y: combine_iv(a.y, b.y), z: combine_iv(a.z, b.z) }
}

fn norm_iv_exec(iv: Interval) -> (r: Interval)
    ensures
        r == norm_iv(iv),
{
    if iv.lo < iv.hi {
        iv
    } else {
        Interval { lo: iv.hi, hi: iv.lo }
    }
}

fn pad_iv_exec(iv: Interval) -> (r: Interval)
    requires
        abs_int(iv.lo as int) <= 2 * MAX_WORLD + 4096,
        abs_int(iv.hi as int) <= 2 * MAX_WORLD + 4096,
    ensures
        r == pad_iv(iv),
{
    if iv.hi - iv.lo < AABB_PAD {
        Interval { lo: iv.lo - AABB_PAD, hi: iv.hi + AABB_PAD }
    } else {
        iv
    }
}

impl AABB {
    /// Normalizes reversed axis ranges and pads near-degenerate axes
    /// so flat geometry remains intersectable.
    pub fn new(x: Interval, y: Interval, z: Interval) -> (r: AABB)
        requires
            abs_int(x.lo as int) <= 2 * MAX_WORLD + 4096,
            abs_int(x.hi as int) <= 2 * MAX_WORLD + 4096,
            abs_int(y.lo as int) <= 2 * MAX_WORLD + 4096,
            abs_int(y.hi as int) <= 2 * MAX_WORLD + 4096,
            abs_int(z.lo as int) <= 2 * MAX_WORLD + 4096,
            abs_int(z.hi as int) <= 2 * MAX_WORLD + 4096,
        ensures
            r.x == pad_iv(norm_iv(x)),
            r.y == pad_iv(norm_iv(y)),
            r.z == pad_iv(norm_iv(z)),
            wf_aabb(r),
            r.x.lo < r.x.hi && r.y.lo < r.y.hi && r.z.lo < r.z.hi,
    {
        AABB {
            x: pad_iv_exec(norm_iv_exec(x)),
            y: pad_iv_exec(norm_iv_exec(y)),
            z: pad_iv_exec(norm_iv_exec(z)),
        }
    }

    /// The box spanned by two opposite corner points.
    pub fn from_points(a: &Vec3, b: &Vec3) -> (r: AABB)
        requires
            abs_int(a.x as int) <= 2 * MAX_WORLD + 4096,
            abs_int(a.y as int) <= 2 * MAX_WORLD + 4096,
            abs_int(a.z as int) <= 2 * MAX_WORLD + 4096,
            abs_int(b.x as int) <= 2 * MAX_WORLD + 4096,
            abs_int(b.y as int) <= 2 * MAX_WORLD + 4096,
            abs_int(b.z as int) <= 2 * MAX_WORLD + 4096,
        ensures
            r.x == pad_iv(norm_iv(Interval { lo: a.x, hi: b.x })),
            r.y == pad_iv(norm_iv(Interval { lo: a.y, hi: b.y })),
            r.z == pad_iv(norm_iv(Interval { lo: a.z, hi: b.z })),
            wf_aabb(r),
    {
        AABB::new(
            Interval { lo: a.x, hi: b.x },
            Interval { lo: a.y, hi: b.y },
            Interval { lo: a.z, hi: b.z },
        )
    }

    /// The empty box, with reversed extents on every axis: the
    /// identity element of combination, containing no point.
    pub fn new_empty() -> (r: AABB)
        ensures
            r.x == (Interval { lo: MAX_BOX as i64, hi: -MAX_BOX as i64 }),
            r.y == r.x && r.z == r.x,
            forall|b: AABB|
                wf_aabb(b) ==> #[trigger] combine_spec(r, b) == b && combine_spec(b, r) == b,
    {
        let r = AABB {
            x: Interval { lo: MAX_BOX, hi: -MAX_BOX },
            y: Interval { lo: MAX_BOX, hi: -MAX_BOX },
            z: Interval { lo: MAX_BOX, hi: -MAX_BOX },
        };
        proof {
            assert forall|b: AABB| wf_aabb(b) implies #[trigger] combine_spec(r, b) == b
                && combine_spec(b, r) == b by {
                assert(combine_iv(r.x, b.x) == b.x);
                assert(combine_iv(r.y, b.y) == b.y);
                assert(combine_iv(r.z, b.z) == b.z);
                assert(combine_iv(b.x, r.x) == b.x);
                assert(combine_iv(b.y, r.y) == b.y);
                assert(combine_iv(b.z, r.z) == b.z);
            }
        }
        r
    }

    /// The all-encompassing box: every representable world coordinate
    /// is inside it.
    pub fn new_universe() -> (r: AABB)
        ensures
            wf_aabb(r),
            r.x == (Interval { lo: -MAX_BOX as i64, hi: MAX_BOX as i64 }),
            r.y == r.x && r.z == r.x,
    {
        AABB {
            x: Interval { lo: -MAX_BOX, hi: MAX_BOX },
            y: Interval { lo: -MAX_BOX, hi: MAX_BOX },
            z: Interval { lo: -MAX_BOX, hi: MAX_BOX },
        }
    }

    /// Componentwise union: the smallest box containing both inputs.
    pub fn combine_bounds(a: &AABB, b: &AABB) -> (r: AABB)
        ensures
            r == combine_spec(*a, *b),
    {
        AABB {
            x: Interval {
                lo: crate::fixed::fx_min(a.x.lo, b.x.lo),
                hi: crate::fixed::fx_max(a.x.hi, b.x.hi),
            },
            y: Interval {
                lo: crate::fixed::fx_min(a.y.lo, b.y.lo),
                hi: crate::fixed::fx_max(a.y.hi, b.y.hi),
            },
            z: Interval {
                lo: crate::fixed::fx_min(a.z.lo, b.z.lo),
                hi: crate::fixed::fx_max(a.z.hi, b.z.hi),
            },
        }
    }

    /// One axis by index, in x, y, z order.
    pub fn axis(&self, i: usize) -> (r: Option<Interval>)
        ensures
            i == 0 ==> r == Some(self.x),
            i == 1 ==> r == Some(self.y),
            i == 2 ==> r == Some(self.z),
            i >= 3 ==> r is None,
    {
        match i {
            0 => Some(self.x),
            1 => Some(self.y),
            2 => Some(self.z),
            _ => None,
        }
    }

    /// Walk the three axes in order.
    pub fn axes(&self) -> (r: AabbAxisIterator<'_>)
        ensures
            r.aabb == self,
            r.index == 0,
    {
        AabbAxisIterator { aabb: self, index: 0 }
    }

    /// The extent of the box on each axis.
    pub fn get_sizes(&self) -> (r: Vec3)
        requires
            wf_aabb(*self),
        ensures
            r.x == self.x.hi - self.x.lo,
            r.y == self.y.hi - self.y.lo,
            r.z == self.z.hi - self.z.lo,
    {
        Vec3 { x: self.x.hi - self.x.lo, y: self.y.hi - self.y.lo, z: self.z.hi - self.z.lo }
    }

    /// The axis with the largest extent; ties resolve toward the
    /// axis checked first in the fixed x, y, z priority order.
    pub fn longest_axis_index(&self) -> (r: usize)
        requires
            wf_aabb(*self),
        ensures
            r == longest_axis_spec(*self),
            r < 3,
    {
        let sx = self.x.hi - self.x.lo;
        let sy = self.y.hi - self.y.lo;
        let sz = self.z.hi - self.z.lo;
        if sx >= sy && sx >= sz {
            0
        } else if sy >= sz {
            1
        } else {
            2
        }
    }

    /// The box shifted by an offset (for translated geometry).
    pub fn shifted(&self, v: &Vec3) -> (r: AABB)
        requires
            wf_aabb(*self),
            crate::vector::in_world_vec(*v),
        ensures
            r.x == (Interval { lo: (self.x.lo + v.x) as i64, hi: (self.x.hi + v.x) as i64 }),
            r.y == (Interval { lo: (self.y.lo + v.y) as i64, hi: (self.y.hi + v.y) as i64 }),
            r.z == (Interval { lo: (self.z.lo + v.z) as i64, hi: (self.z.hi + v.z) as i64 }),
    {
        AABB {
            x: Interval { lo: self.x.lo + v.x, hi: self.x.hi + v.x },
            y: Interval { lo: self.y.lo + v.y, hi: self.y.hi + v.y },
            z: Interval { lo: self.z.lo + v.z, hi: self.z.hi + v.z },
        }
    }

    /// The slab test: true exactly when the ray's line meets the open
    /// box volume at a parameter strictly inside `(t0, t1)`.
    pub fn hit(&self, ray: &Ray, t0: i64, t1: i64) -> (b: bool)
        requires
            wf_aabb(*self),
            wf_ray(*ray),
            -T_INF <= t0 <= T_INF,
            -T_INF <= t1 <= T_INF,
        ensures
            b == ray_hits_box(*self, *ray, t0 as int, t1 as int),
    {
        let mut st = SlabState {
            ln: t0 as i128,
            ld: FX_ONE as i128,
            un: t1 as i128,
            ud: FX_ONE as i128,
        };
        proof {
            assert forall|tn: int, td: int| td > 0 implies (#[trigger] in_state(st, tn, td)
                <==> t_in_range(t0 as int, t1 as int, tn, td)) by {}
        }
        let ghost st0 = st;
        let okx = tighten_axis(self.x, ray.origin.x, ray.direction.x, &mut st);
        if !okx {
            proof {
                axis_refutes(*self, *ray, t0 as int, t1 as int, 0);
            }
            return false;
        }
        let ghost st1 = st;
        let oky = tighten_axis(self.y, ray.origin.y, ray.direction.y, &mut st);
        if !oky {
            proof {
                axis_refutes(*self, *ray, t0 as int, t1 as int, 1);
            }
            return false;
        }
        let ghost st2 = st;
        let okz = tighten_axis(self.z, ray.origin.z, ray.direction.z, &mut st);
        if !okz {
            proof {
                axis_refutes(*self, *ray, t0 as int, t1 as int, 2);
            }
            return false;
        }
        proof {
            assert forall|tn: int, td: int| td > 0 implies (#[trigger] in_state(st, tn, td)
                <==> hits_at(*self, *ray, t0 as int, t1 as int, tn, td)) by {
                assert(in_state(st, tn, td) <==> in_state(st2, tn, td) && axis_inside(
                    self.z,
                    ray.origin.z as int,
                    ray.direction.z as int,
                    tn,
                    td,
                ));
                assert(in_state(st2, tn, td) <==> in_state(st1, tn, td) && axis_inside(
                    self.y,
                    ray.origin.y as int,
                    ray.direction.y as int,
                    tn,
                    td,
                ));
                assert(in_state(st1, tn, td) <==> in_state(st0, tn, td) && axis_inside(
                    self.x,
                    ray.origin.x as int,
                    ray.direction.x as int,
                    tn,
                    td,
                ));
            }
        }
        proof {
            lemma_mul_abs_fits(st.ln as int, st.ud as int);
            lemma_mul_abs_fits(st.un as int, st.ld as int);
        }
        if st.ln * st.ud < st.un * st.ld {
            proof {
                let midn = st.ln * st.ud + st.un * st.ld;
                let midd = 2 * st.ld * st.ud;
                lemma_rat_mid(st.ln as int, st.ld as int, st.un as int, st.ud as int);
                assert(in_state(st, midn as int, midd as int));
                assert(hits_at(*self, *ray, t0 as int, t1 as int, midn as int, midd as int));
            }
            true
        } else {
            proof {
                if ray_hits_box(*self, *ray, t0 as int, t1 as int) {
                    let (tn, td) = choose|tn: int, td: int|
                        td > 0 && #[trigger] hits_at(*self, *ray, t0 as int, t1 as int, tn, td);
                    assert(in_state(st, tn, td));
                    lemma_rat_lt_trans(
                        st.ln as int,
                        st.ld as int,
                        tn,
                        td,
                        st.un as int,
                        st.ud as int,
                    );
                    assert(false);
                }
            }
            false
        }
    }
}

/// The longest-axis choice; on ties the earlier axis of the x, y, z
/// order wins.
pub open spec fn longest_axis_spec(b: AABB) -> int {
    let sx = b.x.hi - b.x.lo;
    let sy = b.y.hi - b.y.lo;
    let sz = b.z.hi - b.z.lo;
    if sx >= sy && sx >= sz {
        0
    } else if sy >= sz {
        1
    } else {
        2
    }
}

/// Walks the three axis intervals of a box in x, y, z order.
pub struct AabbAxisIterator<'a> {
    pub aabb: &'a AABB,
    pub index: usize,
}

impl<'a> AabbAxisIterator<'a> {
    /// The next axis interval, or nothing after the third.
    pub fn next(&mut self) -> (r: Option<Interval>)
        requires
            old(self).index <= 3,
        ensures
            final(self).aabb == old(self).aabb,
            final(self).index == if old(self).index < 3 {
                old(self).index + 1
            } else {
                old(self).index as int
            },
            old(self).index == 0 ==> r == Some(old(self).aabb.x),
            old(self).index == 1 ==> r == Some(old(self).aabb.y),
            old(self).index == 2 ==> r == Some(old(self).aabb.z),
            old(self).index >= 3 ==> r is None,
    {
        let result = self.aabb.axis(self.index);
        if self.index < 3 {
            self.index = self.index + 1;
        }
        result
    }
}

/// Running rational bounds of the slab test: greatest lower bound
/// `ln/ld` and least upper bound `un/ud` of the feasible parameter
/// interval, denominators positive.
struct SlabState {
    ln: i128,
    ld: i128,
    un: i128,
    ud: i128,
}

spec fn st_wf(s: SlabState) -> bool {
    &&& abs_int(s.ln as int) <= T_INF
    &&& abs_int(s.un as int) <= T_INF
    &&& 0 < s.ld <= T_INF
    &&& 0 < s.ud <= T_INF
}

/// The parameter `tn/td` lies strictly between the running bounds.
spec fn in_state(s: SlabState, tn: int, td: int) -> bool {
    rat_lt(s.ln as int, s.ld as int, tn, td) && rat_lt(tn, td, s.un as int, s.ud as int)
}

proof fn lemma_mul_abs_fits(a: int, b: int)
    requires
        abs_int(a) <= T_INF,
        abs_int(b) <= T_INF,
    ensures
        abs_int(a * b) <= 0x1000_0000_0000_0000_0000_0000_0000_0000,
        a * b < i128::MAX,
        a * b > i128::MIN,
{
    assert(abs_int(a * b) <= 0x1000_0000_0000_0000_0000_0000_0000_0000 && a * b
        < 0x7fffffff_ffffffff_ffffffff_ffffffff && a * b
        > -0x80000000_00000000_00000000_00000000) by (nonlinear_arith)
        requires
            abs_int(a) <= 0x4000_0000_0000_0000,
            abs_int(b) <= 0x4000_0000_0000_0000,
    ;
}

/// Transitivity of the rational order.
proof fn lemma_rat_lt_trans(p1: int, q1: int, p2: int, q2: int, p3: int, q3: int)
    requires
        q1 > 0,
        q2 > 0,
        q3 > 0,
        rat_lt(p1, q1, p2, q2),
        rat_lt(p2, q2, p3, q3),
    ensures
        rat_lt(p1, q1, p3, q3),
{
    assert(p1 * q3 < p3 * q1) by (nonlinear_arith)
        requires
            q1 > 0,
            q2 > 0,
            q3 > 0,
            p1 * q2 < p2 * q1,
            p2 * q3 < p3 * q2,
    ;
}

/// From `<=` then `<` (used when folding maxima and minima).
proof fn lemma_rat_le_lt_trans(p1: int, q1: int, p2: int, q2: int, p3: int, q3: int)
    requires
        q1 > 0,
        q2 > 0,
        q3 > 0,
        !rat_lt(p2, q2, p1, q1),
        rat_lt(p2, q2, p3, q3),
    ensures
        rat_lt(p1, q1, p3, q3),
{
    assert(p1 * q3 < p3 * q1) by (nonlinear_arith)
        requires
            q1 > 0,
            q2 > 0,
            q3 > 0,
            p2 * q1 >= p1 * q2,
            p2 * q3 < p3 * q2,
    ;
}

/// From `<` then `<=`.
proof fn lemma_rat_lt_le_trans(p1: int, q1: int, p2: int, q2: int, p3: int, q3: int)
    requires
        q1 > 0,
        q2 > 0,
        q3 > 0,
        rat_lt(p1, q1, p2, q2),
        !rat_lt(p3, q3, p2, q2),
    ensures
        rat_lt(p1, q1, p3, q3),
{
    assert(p1 * q3 < p3 * q1) by (nonlinear_arith)
        requires
            q1 > 0,
            q2 > 0,
            q3 > 0,
            p1 * q2 < p2 * q1,
            p3 * q2 >= p2 * q3,
    ;
}

/// The midpoint of two rationals lies strictly between them.
proof fn lemma_rat_mid(p1: int, q1: int, p2: int, q2: int)
    requires
        q1 > 0,
        q2 > 0,
        rat_lt(p1, q1, p2, q2),
    ensures
        2 * q1 * q2 > 0,
        rat_lt(p1, q1, p1 * q2 + p2 * q1, 2 * q1 * q2),
        rat_lt(p1 * q2 + p2 * q1, 2 * q1 * q2, p2, q2),
{
    assert(2 * q1 * q2 > 0 && p1 * (2 * q1 * q2) < (p1 * q2 + p2 * q1) * q1 && (p1 * q2 + p2
        * q1) * q2 < p2 * (2 * q1 * q2)) by (nonlinear_arith)
        requires
            q1 > 0,
            q2 > 0,
            p1 * q2 < p2 * q1,
    ;
}

/// When the slab test bails out on one axis, no parameter at all can
/// satisfy that axis, so the box is missed.
proof fn axis_refutes(b: AABB, r: Ray, t0: int, t1: int, axis: int)
    requires
        axis == 0 ==> forall|tn: int, td: int|
            td > 0 ==> !#[trigger] axis_inside(b.x, r.origin.x as int, r.direction.x as int, tn, td),
        axis == 1 ==> forall|tn: int, td: int|
            td > 0 ==> !#[trigger] axis_inside(b.y, r.origin.y as int, r.direction.y as int, tn, td),
        axis == 2 ==> forall|tn: int, td: int|
            td > 0 ==> !#[trigger] axis_inside(b.z, r.origin.z as int, r.direction.z as int, tn, td),
        0 <= axis <= 2,
    ensures
        !ray_hits_box(b, r, t0, t1),
{
    if ray_hits_box(b, r, t0, t1) {
        let (tn, td) = choose|tn: int, td: int| td > 0 && #[trigger] hits_at(b, r, t0, t1, tn, td);
        assert(point_inside(b, r, tn, td));
        assert(false);
    }
}

/// Fold one axis into the running rational bounds.  Returns false
/// when the axis can never be satisfied; otherwise the new bounds
/// characterize exactly the old feasible set restricted to this axis.
fn tighten_axis(iv: Interval, o: i64, d: i64, st: &mut SlabState) -> (ok: bool)
    requires
        st_wf(*old(st)),
        wf_iv(iv),
        abs_int(o as int) <= 8 * MAX_WORLD,
        abs_int(d as int) <= 8 * MAX_WORLD,
    ensures
        st_wf(*final(st)),
        !ok ==> forall|tn: int, td: int|
            td > 0 ==> !#[trigger] axis_inside(iv, o as int, d as int, tn, td),
        ok ==> forall|tn: int, td: int|
            td > 0 ==> (#[trigger] in_state(*final(st), tn, td) <==> in_state(*old(st), tn, td)
                && axis_inside(iv, o as int, d as int, tn, td)),
    {
    if d == 0 {
        if iv.lo < o && o < iv.hi {
            proof {
                assert forall|tn: int, td: int| td > 0 implies #[trigger] axis_inside(
                    iv,
                    o as int,
                    d as int,
                    tn,
                    td,
                ) by {
                    assert(tn * (d as int) == 0) by (nonlinear_arith)
                        requires
                            d == 0,
                    ;
                    assert(iv.lo * td < o * td && o * td < iv.hi * td) by (nonlinear_arith)
                        requires
                            iv.lo < o as int && (o as int) < iv.hi,
                            td > 0,
                    ;
                }
            }
            true
        } else {
            proof {
                assert forall|tn: int, td: int| td > 0 implies !#[trigger] axis_inside(
                    iv,
                    o as int,
                    d as int,
                    tn,
                    td,
                ) by {
                    assert(tn * (d as int) == 0) by (nonlinear_arith)
                        requires
                            d == 0,
                    ;
                    assert(!(iv.lo * td < o * td && o * td < iv.hi * td)) by (nonlinear_arith)
                        requires
                            !(iv.lo < o as int && (o as int) < iv.hi),
                            td > 0,
                    ;
                }
            }
            false
        }
    } else {
        let (nlo, nhi, den): (i128, i128, i128) = if d > 0 {
            ((iv.lo as i128) - (o as i128), (iv.hi as i128) - (o as i128), d as i128)
        } else {
            ((o as i128) - (iv.hi as i128), (o as i128) - (iv.lo as i128), -(d as i128))
        };
        proof {
            assert forall|tn: int, td: int| td > 0 implies (#[trigger] axis_inside(
                iv,
                o as int,
                d as int,
                tn,
                td,
            ) <==> (rat_lt(nlo as int, den as int, tn, td) && rat_lt(
                tn,
                td,
                nhi as int,
                den as int,
            ))) by {
                if d > 0 {
                    assert((iv.lo * td < o * td + tn * d && o * td + tn * d < iv.hi * td) <==> ((
                    iv.lo - o) * td < tn * d && tn * d < (iv.hi - o) * td)) by (nonlinear_arith);
                } else {
                    assert((iv.lo * td < o * td + tn * d && o * td + tn * d < iv.hi * td) <==> ((o
                        - iv.hi) * td < tn * (-(d as int)) && tn * (-(d as int)) < (o - iv.lo)
                        * td)) by (nonlinear_arith);
                }
            }
        }
        proof {
            lemma_mul_abs_fits(nlo as int, st.ld as int);
            lemma_mul_abs_fits(st.ln as int, den as int);
            lemma_mul_abs_fits(nhi as int, st.ud as int);
            lemma_mul_abs_fits(st.un as int, den as int);
        }
        let ghost pre = *st;
        if nlo * st.ld > st.ln * den {
            st.ln = nlo;
            st.ld = den;
        }
        if nhi * st.ud < st.un * den {
            st.un = nhi;
            st.ud = den;
        }
        proof {
            assert forall|tn: int, td: int| td > 0 implies (#[trigger] in_state(*st, tn, td)
                <==> in_state(pre, tn, td) && axis_inside(iv, o as int, d as int, tn, td)) by {
                let lnn = st.ln as int;
                let ldn = st.ld as int;
                let unn = st.un as int;
                let udn = st.ud as int;
                let lno = pre.ln as int;
                let ldo = pre.ld as int;
                let uno = pre.un as int;
                let udo = pre.ud as int;
                // lower side: tn/td above the new max iff above both
                if rat_lt(lno, ldo, nlo as int, den as int) {
                    // new lower bound is the axis fraction
                    if rat_lt(lnn, ldn, tn, td) {
                        lemma_rat_lt_trans(lno, ldo, nlo as int, den as int, tn, td);
                    }
                } else {
                    if rat_lt(lnn, ldn, tn, td) {
                        lemma_rat_le_lt_trans(nlo as int, den as int, lno, ldo, tn, td);
                    }
                }
                // upper side
                if rat_lt(nhi as int, den as int, uno, udo) {
                    if rat_lt(tn, td, unn, udn) {
                        lemma_rat_lt_trans(tn, td, nhi as int, den as int, uno, udo);
                    }
                } else {
                    if rat_lt(tn, td, unn, udn) {
                        lemma_rat_lt_le_trans(tn, td, uno, udo, nhi as int, den as int);
                    }
                }
            }
        }
        true
    }
}

proof fn lemma_axis_widen(inner: Interval, outer: Interval, o: int, d: int, tn: int, td: int)
    requires
        iv_contains(outer, inner),
        axis_inside(inner, o, d, tn, td),
        td > 0,
    ensures
        axis_inside(outer, o, d, tn, td),
{
    assert(outer.lo * td <= inner.lo * td && inner.hi * td <= outer.hi * td) by (nonlinear_arith)
        requires
            outer.lo <= inner.lo,
            inner.hi <= outer.hi,
            td > 0,
    ;
}

/// A whole (fixed-point) parameter strictly inside the range whose
/// ray point is strictly inside the box witnesses a box hit.
pub proof fn lemma_hit_witness_raw(b: AABB, r: Ray, t0: int, t1: int, t: int)
    requires
        t0 < t < t1,
        point_inside(b, r, t, FX_ONE as int),
    ensures
        ray_hits_box(b, r, t0, t1),
{
    assert(t0 * FX_ONE < t * FX_ONE && t * FX_ONE < t1 * FX_ONE) by (nonlinear_arith)
        requires
            t0 < t < t1,
            FX_ONE > 0,
    ;
    assert(hits_at(b, r, t0, t1, t, FX_ONE as int));
}

/// The union of two boxes contains both, and any box containing both
/// contains the union: the combination is the tight union.
pub proof fn lemma_combine_tight(a: AABB, b: AABB)
    ensures
        box_contains(combine_spec(a, b), a),
        box_contains(combine_spec(a, b), b),
        forall|c: AABB|
            box_contains(c, a) && box_contains(c, b) ==> #[trigger] box_contains(
                c,
                combine_spec(a, b),
            ),
{
}

/// A whole parameter strictly inside a box keeps the evaluated ray
/// point within one grid step of the box on every axis.
pub proof fn lemma_point_in_box(b: AABB, r: Ray, t: i64)
    requires
        wf_aabb(b),
        point_inside(b, r, t as int, FX_ONE as int),
    ensures
        b.x.lo - 1 <= r.origin.x + crate::fixed::fx_mul(r.direction.x as int, t as int) <= b.x.hi
            + 1,
        b.y.lo - 1 <= r.origin.y + crate::fixed::fx_mul(r.direction.y as int, t as int) <= b.y.hi
            + 1,
        b.z.lo - 1 <= r.origin.z + crate::fixed::fx_mul(r.direction.z as int, t as int) <= b.z.hi
            + 1,
{
    lemma_axis_point(b.x, r.origin.x as int, r.direction.x as int, t as int);
    lemma_axis_point(b.y, r.origin.y as int, r.direction.y as int, t as int);
    lemma_axis_point(b.z, r.origin.z as int, r.direction.z as int, t as int);
}

proof fn lemma_axis_point(iv: Interval, o: int, d: int, t: int)
    requires
        axis_inside(iv, o, d, t, FX_ONE as int),
    ensures
        iv.lo - 1 <= o + crate::fixed::fx_mul(d, t) <= iv.hi + 1,
{
    let td = d * t;
    assert(t * d == d * t) by (nonlinear_arith);
    crate::fixed::lemma_tdiv_bound(td, FX_ONE as int);
    vstd::arithmetic::div_mod::lemma_fundamental_div_mod(td, FX_ONE as int);
    vstd::arithmetic::div_mod::lemma_mod_bound(td, FX_ONE as int);
    if td >= 0 {
        assert((iv.lo - o) * FX_ONE < td && td < (iv.hi - o) * FX_ONE) by (nonlinear_arith)
            requires
                iv.lo * FX_ONE < o * FX_ONE + td && o * FX_ONE + td < iv.hi * FX_ONE,
        ;
        lemma_scaled_range(iv.lo - o, iv.hi - o, td);
    } else {
        assert((iv.lo - o) * FX_ONE < td && td < (iv.hi - o) * FX_ONE) by (nonlinear_arith)
            requires
                iv.lo * FX_ONE < o * FX_ONE + td && o * FX_ONE + td < iv.hi * FX_ONE,
        ;
        lemma_scaled_range_neg(iv.lo - o, iv.hi - o, td);
    }
}

proof fn lemma_scaled_range(lo: int, hi: int, td: int)
    requires
        lo * FX_ONE < td < hi * FX_ONE,
        td >= 0,
    ensures
        lo - 1 <= crate::fixed::tdiv(td, FX_ONE as int) <= hi + 1,
{
    let q = td / (FX_ONE as int);
    vstd::arithmetic::div_mod::lemma_fundamental_div_mod(td, FX_ONE as int);
    vstd::arithmetic::div_mod::lemma_mod_bound(td, FX_ONE as int);
    assert(lo * FX_ONE < FX_ONE as int * q + td % (FX_ONE as int));
    assert(q >= lo || q < lo);
    if q < lo {
        assert(FX_ONE as int * q + td % (FX_ONE as int) < FX_ONE as int * lo) by (nonlinear_arith)
            requires
                q <= lo - 1,
                0 <= td % (FX_ONE as int) < FX_ONE,
                FX_ONE == 0x100_0000,
        ;
        assert(false);
    }
    if q > hi {
        assert(FX_ONE as int * q + td % (FX_ONE as int) >= FX_ONE as int * hi + FX_ONE)
            by (nonlinear_arith)
            requires
                q >= hi + 1,
                0 <= td % (FX_ONE as int),
                FX_ONE == 0x100_0000,
        ;
        assert(hi * FX_ONE == FX_ONE as int * hi) by (nonlinear_arith);
        assert(false);
    }
}

proof fn lemma_scaled_range_neg(lo: int, hi: int, td: int)
    requires
        lo * FX_ONE < td < hi * FX_ONE,
        td < 0,
    ensures
        lo - 1 <= crate::fixed::tdiv(td, FX_ONE as int) <= hi + 1,
{
    let q = (-td) / (FX_ONE as int);
    vstd::arithmetic::div_mod::lemma_fundamental_div_mod(-td, FX_ONE as int);
    vstd::arithmetic::div_mod::lemma_mod_bound(-td, FX_ONE as int);
    assert(crate::fixed::tdiv(td, FX_ONE as int) == -q);
    if -q < lo - 1 {
        assert(false) by (nonlinear_arith)
            requires
                -td == FX_ONE as int * q + (-td) % (FX_ONE as int),
                0 <= (-td) % (FX_ONE as int) < FX_ONE,
                q > -(lo - 1),
                lo * FX_ONE < td,
                td < 0,
                FX_ONE == 0x100_0000,
        ;
    }
    if -q > hi + 1 {
        assert(false) by (nonlinear_arith)
            requires
                -td == FX_ONE as int * q + (-td) % (FX_ONE as int),
                0 <= (-td) % (FX_ONE as int) < FX_ONE,
                q < -(hi + 1),
                td < hi * FX_ONE,
                td < 0,
                FX_ONE == 0x100_0000,
        ;
    }
}

/// Strict containment carries over to any wider box on each axis.
pub proof fn lemma_point_inside_widen(inner: AABB, outer: AABB, r: Ray, tn: int, td: int)
    requires
        box_contains(outer, inner),
        point_inside(inner, r, tn, td),
        td > 0,
    ensures
        point_inside(outer, r, tn, td),
{
    lemma_axis_widen(inner.x, outer.x, r.origin.x as int, r.direction.x as int, tn, td);
    lemma_axis_widen(inner.y, outer.y, r.origin.y as int, r.direction.y as int, tn, td);
    lemma_axis_widen(inner.z, outer.z, r.origin.z as int, r.direction.z as int, tn, td);
}

/// Exact strict-interior membership test for a whole fixed-point
/// parameter, used by shapes to pin their reported hits inside their
/// own (conservatively grown) boxes.
pub fn contains_at(b: &AABB, ray: &Ray, t: i64, t0: i64, t1: i64) -> (r: bool)
    requires
        wf_aabb(*b),
        wf_ray(*ray),
        -T_INF <= t <= T_INF,
    ensures
        r == (t0 < t < t1 && point_inside(*b, *ray, t as int, FX_ONE as int)),
{
    if !(t0 < t && t < t1) {
        return false;
    }
    let r1 = axis_contains_at(b.x, ray.origin.x, ray.direction.x, t);
    let r2 = axis_contains_at(b.y, ray.origin.y, ray.direction.y, t);
    let r3 = axis_contains_at(b.z, ray.origin.z, ray.direction.z, t);
    r1 && r2 && r3
}

fn axis_contains_at(iv: Interval, o: i64, d: i64, t: i64) -> (r: bool)
    requires
        wf_iv(iv),
        abs_int(o as int) <= 8 * MAX_WORLD,
        abs_int(d as int) <= 8 * MAX_WORLD,
        -T_INF <= t <= T_INF,
    ensures
        r == axis_inside(iv, o as int, d as int, t as int, FX_ONE as int),
{
    proof {
        lemma_mul_abs_fits(iv.lo as int, FX_ONE as int);
        lemma_mul_abs_fits(iv.hi as int, FX_ONE as int);
        lemma_mul_abs_fits(o as int, FX_ONE as int);
        lemma_mul_abs_fits(t as int, d as int);
    }
    let lo_s: i128 = (iv.lo as i128) * (FX_ONE as i128);
    let hi_s: i128 = (iv.hi as i128) * (FX_ONE as i128);
    let p: i128 = (o as i128) * (FX_ONE as i128) + (t as i128) * (d as i128);
    lo_s < p && p < hi_s
}

} // verus!
