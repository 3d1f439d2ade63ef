//! The bounding-volume hierarchy: a binary tree over hittables built
//! by median split on the longest axis of the combined box, with
//! pruned ray queries.

use vstd::prelude::*;

use crate::aabb::{box_contains, combine_spec, longest_axis_spec, ray_hits_box, wf_aabb, AABB};
use crate::fixed::{FX_ONE, T_INF};
use crate::hittable::{
    elig, h_bbox, h_cand, h_det, h_wf, hitrec_ok, HitRecord, Hittable,
};
use crate::material::wf_material;
use crate::ray::{wf_ray, Ray};
use crate::rng::RandomSource;

verus! {

broadcast use vstd::std_specs::vec::group_vec_axioms, vstd::seq::group_seq_axioms;

/// A child of a tree node: one hittable, a further node, or nothing.
/// The empty child stands in when a node holds a single primitive: a
/// refinement of a duplicated leaf that avoids the redundant test.
pub enum BvhTree {
    Leaf(Box<Hittable>),
    Node(Box<BVHNode>),
    Empty,
}

/// The box of an absent child: reversed extents, the identity
/// element of box combination.
pub open spec fn empty_tree_box() -> AABB {
    AABB {
        x: crate::aabb::Interval {
            lo: crate::aabb::MAX_BOX as i64,
            hi: (-crate::aabb::MAX_BOX) as i64,
        },
        y: crate::aabb::Interval {
            lo: crate::aabb::MAX_BOX as i64,
            hi: (-crate::aabb::MAX_BOX) as i64,
        },
        z: crate::aabb::Interval {
            lo: crate::aabb::MAX_BOX as i64,
            hi: (-crate::aabb::MAX_BOX) as i64,
        },
    }
}

/// An inner node: two children and the exact union of their boxes.
pub struct BVHNode {
    pub left: BvhTree,
    pub right: BvhTree,
    pub aabb: AABB,
}

/// The box of a child.
pub open spec fn tree_bbox(t: BvhTree) -> AABB
    decreases t,
{
    match t {
        BvhTree::Leaf(h) => h_bbox(*h),
        BvhTree::Node(n) => n.aabb,
        BvhTree::Empty => empty_tree_box(),
    }
}

/// The node invariant: children are well formed and the node's box
/// is exactly the union of the children's boxes.
pub open spec fn bvh_wf(n: BVHNode) -> bool
    decreases n,
{
    &&& tree_wf(n.left)
    &&& tree_wf(n.right)
    &&& n.aabb == combine_spec(tree_bbox(n.left), tree_bbox(n.right))
    &&& wf_aabb(n.aabb)
}

/// Child well-formedness.
pub open spec fn tree_wf(t: BvhTree) -> bool
    decreases t,
{
    match t {
        BvhTree::Leaf(h) => h_wf(*h),
        BvhTree::Node(n) => bvh_wf(*n),
        BvhTree::Empty => true,
    }
}

/// The subtree contains no participating media.
pub open spec fn bvh_det(n: BVHNode) -> bool
    decreases n,
{
    tree_det(n.left) && tree_det(n.right)
}

/// Child determinism.
pub open spec fn tree_det(t: BvhTree) -> bool
    decreases t,
{
    match t {
        BvhTree::Leaf(h) => h_det(*h),
        BvhTree::Node(n) => bvh_det(*n),
        BvhTree::Empty => true,
    }
}

/// The hit parameter the pruned traversal reports: nothing if the
/// ray misses the node's box; otherwise the left child is probed
/// with the full range and the right child only with the range
/// shrunk to the left child's hit.
pub open spec fn bvh_cand(n: BVHNode, r: Ray, t0: int, t1: int) -> Option<int>
    decreases n,
{
    if !ray_hits_box(n.aabb, r, t0, t1) {
        None
    } else {
        match tree_cand(n.left, r, t0, t1) {
            Some(tl) => match tree_cand(n.right, r, t0, tl) {
                Some(tr) => Some(tr),
                None => Some(tl),
            },
            None => tree_cand(n.right, r, t0, t1),
        }
    }
}

/// Child candidate.
pub open spec fn tree_cand(t: BvhTree, r: Ray, t0: int, t1: int) -> Option<int>
    decreases t,
{
    match t {
        BvhTree::Leaf(h) => h_cand(*h, r, t0, t1),
        BvhTree::Node(n) => bvh_cand(*n, r, t0, t1),
        BvhTree::Empty => None,
    }
}

/// The hittables at the leaves of the subtree, left to right.
pub open spec fn bvh_leaves(n: BVHNode) -> Seq<Hittable>
    decreases n,
{
    tree_leaves(n.left) + tree_leaves(n.right)
}

/// The leaves of a child.
pub open spec fn tree_leaves(t: BvhTree) -> Seq<Hittable>
    decreases t,
{
    match t {
        BvhTree::Leaf(h) => seq![*h],
        BvhTree::Node(n) => bvh_leaves(*n),
        BvhTree::Empty => Seq::empty(),
    }
}

/// A well-formed child carries a well-formed box.
pub proof fn lemma_tree_bbox_wf(t: BvhTree)
    requires
        tree_wf(t),
        !(t is Empty),
    ensures
        wf_aabb(tree_bbox(t)),
    decreases t,
{
    match t {
        BvhTree::Leaf(h) => {
            crate::hittable::lemma_h_bbox_wf(*h);
        },
        BvhTree::Node(n) => {
            assert(bvh_wf(*n));
            assert(wf_aabb((*n).aabb));
        },
        BvhTree::Empty => {
        },
    }
}

/// The shape is a single primitive.
pub open spec fn prim(h: Hittable) -> bool {
    h matches Hittable::Sphere(_) || h matches Hittable::Quad(_)
}

/// Every leaf of the child is a primitive.
pub open spec fn tree_prim(t: BvhTree) -> bool
    decreases t,
{
    match t {
        BvhTree::Leaf(h) => prim(*h),
        BvhTree::Node(n) => node_prim(*n),
        BvhTree::Empty => true,
    }
}

/// Every leaf of the subtree is a primitive.
pub open spec fn node_prim(n: BVHNode) -> bool
    decreases n,
{
    tree_prim(n.left) && tree_prim(n.right)
}

/// Every element of the sequence is a primitive.
pub open spec fn all_prim(s: Seq<Hittable>) -> bool {
    forall|i: int| 0 <= i < s.len() ==> prim(#[trigger] s[i])
}

/// A candidate cut off at a tighter upper range bound.
pub open spec fn restrict_cand(c: Option<int>, b: int) -> Option<int> {
    match c {
        Some(t) => if t < b {
            Some(t)
        } else {
            None
        },
        None => None,
    }
}

/// `res` is the nearest hit over the whole collection: nothing
/// exactly when no member reports a hit in the range, and otherwise
/// the minimum reported parameter.
pub open spec fn is_best(s: Seq<Hittable>, r: Ray, t0: int, t1: int, res: Option<int>) -> bool {
    match res {
        None => forall|i: int| 0 <= i < s.len() ==> (#[trigger] h_cand(s[i], r, t0, t1)) is None,
        Some(t) => {
            &&& exists|i: int|
                0 <= i < s.len() && (#[trigger] h_cand(s[i], r, t0, t1)) == Some(t)
            &&& forall|i: int|
                0 <= i < s.len() ==> (match #[trigger] h_cand(s[i], r, t0, t1) {
                    Some(ti) => t <= ti,
                    None => true,
                })
        },
    }
}

/// A primitive's reported parameter is eligible against its own box.
proof fn lemma_prim_elig(h: Hittable, r: Ray, t0: int, t1: int)
    requires
        prim(h),
    ensures
        h_cand(h, r, t0, t1) matches Some(t) ==> elig(h_bbox(h), r, t0, t1, t),
{
}

/// Shrinking the upper range bound restricts a primitive's candidate.
proof fn lemma_prim_restrict(h: Hittable, r: Ray, t0: int, b1: int, b2: int)
    requires
        prim(h),
        b2 <= b1,
    ensures
        h_cand(h, r, t0, b2) == restrict_cand(h_cand(h, r, t0, b1), b2),
{
    match h {
        Hittable::Sphere(s) => {
            let ct = crate::sphere::sphere_center_at(s, r.time as int);
            let oc = crate::vector::Vec3 {
                x: (ct.x - r.origin.x) as i64,
                y: (ct.y - r.origin.y) as i64,
                z: (ct.z - r.origin.z) as i64,
            };
            let a = crate::vector::dot_spec(r.direction, r.direction);
            let hh = crate::vector::dot_spec(r.direction, oc);
            let c = crate::vector::dot_spec(oc, oc) - crate::fixed::fx_mul(
                s.radius as int,
                s.radius as int,
            );
            let disc = hh * hh - a * c;
            if a > 0 && disc >= 0 {
                let sd = crate::fixed::floor_sqrt(disc);
                lemma_floor_sqrt_exists(disc);
                assert(sd >= 0);
                assert((hh - sd) * FX_ONE <= (hh + sd) * FX_ONE) by (nonlinear_arith)
                    requires
                        sd >= 0,
                        FX_ONE == 0x100_0000,
                ;
                crate::fixed::lemma_tdiv_mono((hh - sd) * FX_ONE, (hh + sd) * FX_ONE, a);
            }
        },
        Hittable::Quad(_) => {},
        _ => {
            assert(false);
        },
    }
}

/// A primitive's candidate over a clipped range is its candidate
/// over the full range: shrinking the upper bound never changes a
/// reported parameter, only discards it.
pub proof fn lemma_prim_full_cand(h: Hittable, r: Ray, t0: int, b: int, t1: int, t: int)
    requires
        prim(h),
        b <= t1,
        h_cand(h, r, t0, b) == Some(t),
    ensures
        h_cand(h, r, t0, t1) == Some(t),
{
    lemma_prim_restrict(h, r, t0, t1, b);
}

/// A nonnegative integer has a floor square root.
proof fn lemma_floor_sqrt_exists(x: int)
    requires
        x >= 0,
    ensures
        crate::fixed::is_floor_sqrt(x, crate::fixed::floor_sqrt(x)),
    decreases x,
{
    if x == 0 {
        assert(crate::fixed::is_floor_sqrt(0, 0));
    } else {
        lemma_floor_sqrt_exists(x - 1);
        let p = crate::fixed::floor_sqrt(x - 1);
        if x < (p + 1) * (p + 1) {
            assert(crate::fixed::is_floor_sqrt(x, p));
        } else {
            assert(x == (p + 1) * (p + 1));
            assert(((p + 1) + 1) * ((p + 1) + 1) > x) by (nonlinear_arith)
                requires
                    x == (p + 1) * (p + 1),
                    p >= 0,
            ;
            assert(crate::fixed::is_floor_sqrt(x, p + 1));
        }
    }
    let w = choose|w: int| crate::fixed::is_floor_sqrt(x, w);
    crate::fixed::lemma_floor_sqrt_of(x, w);
}

/// Every leaf of a primitive-only child is a primitive.
proof fn lemma_leaves_prim(t: BvhTree)
    requires
        tree_prim(t),
    ensures
        all_prim(tree_leaves(t)),
    decreases t,
{
    match t {
        BvhTree::Leaf(_) => {},
        BvhTree::Empty => {},
        BvhTree::Node(n) => {
            lemma_leaves_prim(n.left);
            lemma_leaves_prim(n.right);
            assert forall|i: int| 0 <= i < tree_leaves(t).len() implies prim(
                #[trigger] tree_leaves(t)[i],
            ) by {
                let ll = tree_leaves(n.left);
                if i < ll.len() {
                    assert(tree_leaves(t)[i] == ll[i]);
                } else {
                    assert(tree_leaves(t)[i] == tree_leaves(n.right)[i - ll.len()]);
                }
            }
        },
    }
}

/// Every leaf's box is contained in the child's box.
proof fn lemma_leaf_box_in_tree(t: BvhTree, i: int)
    requires
        tree_wf(t),
        0 <= i < tree_leaves(t).len(),
    ensures
        box_contains(tree_bbox(t), h_bbox(tree_leaves(t)[i])),
    decreases t,
{
    match t {
        BvhTree::Leaf(_) => {},
        BvhTree::Empty => {},
        BvhTree::Node(n) => {
            let ll = tree_leaves(n.left);
            if i < ll.len() {
                lemma_leaf_box_in_tree(n.left, i);
                assert(tree_leaves(t)[i] == ll[i]);
            } else {
                lemma_leaf_box_in_tree(n.right, i - ll.len());
                assert(tree_leaves(t)[i] == tree_leaves(n.right)[i - ll.len()]);
            }
        },
    }
}

/// A reported child hit is eligible against the child's box.
proof fn lemma_tree_sound(t: BvhTree, r: Ray, t0: int, t1: int)
    requires
        tree_wf(t),
        tree_prim(t),
    ensures
        tree_cand(t, r, t0, t1) matches Some(tt) ==> elig(tree_bbox(t), r, t0, t1, tt),
    decreases t, 0int,
{
    match t {
        BvhTree::Leaf(h) => {
            lemma_prim_elig(*h, r, t0, t1);
        },
        BvhTree::Node(n) => {
            lemma_node_sound(*n, r, t0, t1);
        },
        BvhTree::Empty => {
        },
    }
}

/// A reported node hit is eligible against the node's box.
proof fn lemma_node_sound(n: BVHNode, r: Ray, t0: int, t1: int)
    requires
        bvh_wf(n),
        node_prim(n),
    ensures
        bvh_cand(n, r, t0, t1) matches Some(tt) ==> elig(n.aabb, r, t0, t1, tt),
    decreases n, 1int,
{
    if ray_hits_box(n.aabb, r, t0, t1) {
        lemma_tree_sound(n.left, r, t0, t1);
        match tree_cand(n.left, r, t0, t1) {
            Some(tl) => {
                lemma_tree_sound(n.right, r, t0, tl);
                match tree_cand(n.right, r, t0, tl) {
                    Some(tr) => {
                        crate::aabb::lemma_point_inside_widen(
                            tree_bbox(n.right),
                            n.aabb,
                            r,
                            tr,
                            FX_ONE as int,
                        );
                    },
                    None => {
                        crate::aabb::lemma_point_inside_widen(
                            tree_bbox(n.left),
                            n.aabb,
                            r,
                            tl,
                            FX_ONE as int,
                        );
                    },
                }
            },
            None => {
                lemma_tree_sound(n.right, r, t0, t1);
                match tree_cand(n.right, r, t0, t1) {
                    Some(tr) => {
                        crate::aabb::lemma_point_inside_widen(
                            tree_bbox(n.right),
                            n.aabb,
                            r,
                            tr,
                            FX_ONE as int,
                        );
                    },
                    None => {},
                }
            },
        }
    }
}

/// The traversal result of a primitive-only child is the nearest hit
/// over its leaves.
proof fn lemma_tree_best(t: BvhTree, r: Ray, t0: int, t1: int)
    requires
        tree_wf(t),
        tree_prim(t),
    ensures
        is_best(tree_leaves(t), r, t0, t1, tree_cand(t, r, t0, t1)),
    decreases t, 0int,
{
    match t {
        BvhTree::Leaf(h) => {
            let lv = tree_leaves(t);
            assert(lv[0] == *h);
            match h_cand(*h, r, t0, t1) {
                Some(tt) => {
                    assert(0 <= 0 < lv.len() && h_cand(lv[0], r, t0, t1) == Some(tt));
                },
                None => {},
            }
        },
        BvhTree::Node(n) => {
            lemma_node_best(*n, r, t0, t1);
        },
        BvhTree::Empty => {
        },
    }
}

/// The pruned traversal of a primitive-only subtree reports exactly
/// the nearest hit over its leaves.
proof fn lemma_node_best(n: BVHNode, r: Ray, t0: int, t1: int)
    requires
        bvh_wf(n),
        node_prim(n),
    ensures
        is_best(bvh_leaves(n), r, t0, t1, bvh_cand(n, r, t0, t1)),
    decreases n, 1int,
{
    let lv = bvh_leaves(n);
    let ll = tree_leaves(n.left);
    let rl = tree_leaves(n.right);
    lemma_leaves_prim(n.left);
    lemma_leaves_prim(n.right);
    if !ray_hits_box(n.aabb, r, t0, t1) {
        assert forall|i: int| 0 <= i < lv.len() implies (#[trigger] h_cand(
            lv[i],
            r,
            t0,
            t1,
        )) is None by {
            let leaf = lv[i];
            if i < ll.len() {
                assert(leaf == ll[i]);
            } else {
                assert(leaf == rl[i - ll.len()]);
            }
            match h_cand(leaf, r, t0, t1) {
                Some(tt) => {
                    if i < ll.len() {
                        lemma_prim_elig(leaf, r, t0, t1);
                        lemma_leaf_box_in_tree(n.left, i);
                        crate::aabb::lemma_point_inside_widen(
                            h_bbox(leaf),
                            tree_bbox(n.left),
                            r,
                            tt,
                            FX_ONE as int,
                        );
                        crate::aabb::lemma_point_inside_widen(
                            tree_bbox(n.left),
                            n.aabb,
                            r,
                            tt,
                            FX_ONE as int,
                        );
                    } else {
                        lemma_prim_elig(leaf, r, t0, t1);
                        lemma_leaf_box_in_tree(n.right, i - ll.len());
                        crate::aabb::lemma_point_inside_widen(
                            h_bbox(leaf),
                            tree_bbox(n.right),
                            r,
                            tt,
                            FX_ONE as int,
                        );
                        crate::aabb::lemma_point_inside_widen(
                            tree_bbox(n.right),
                            n.aabb,
                            r,
                            tt,
                            FX_ONE as int,
                        );
                    }
                    crate::aabb::lemma_hit_witness_raw(n.aabb, r, t0, t1, tt);
                    assert(false);
                },
                None => {},
            }
        }
    } else {
        lemma_tree_best(n.left, r, t0, t1);
        lemma_tree_sound(n.left, r, t0, t1);
        match tree_cand(n.left, r, t0, t1) {
            Some(tl) => {
                lemma_tree_best(n.right, r, t0, tl);
                assert forall|j: int| 0 <= j < rl.len() implies #[trigger] h_cand(
                    rl[j],
                    r,
                    t0,
                    tl,
                ) == restrict_cand(h_cand(rl[j], r, t0, t1), tl) by {
                    lemma_prim_restrict(rl[j], r, t0, t1, tl);
                }
                match tree_cand(n.right, r, t0, tl) {
                    Some(tr) => {
                        let j = choose|j: int|
                            0 <= j < rl.len() && h_cand(rl[j], r, t0, tl) == Some(tr);
                        assert(lv[ll.len() + j] == rl[j]);
                        assert(h_cand(rl[j], r, t0, tl) == restrict_cand(
                            h_cand(rl[j], r, t0, t1),
                            tl,
                        ));
                        assert(h_cand(lv[ll.len() + j], r, t0, t1) == Some(tr));
                        assert forall|i: int| 0 <= i < lv.len() implies (match #[trigger] h_cand(
                            lv[i],
                            r,
                            t0,
                            t1,
                        ) {
                            Some(ti) => tr <= ti,
                            None => true,
                        }) by {
                            if i < ll.len() {
                                assert(lv[i] == ll[i]);
                            } else {
                                assert(lv[i] == rl[i - ll.len()]);
                                assert(h_cand(rl[i - ll.len()], r, t0, tl) == restrict_cand(
                                    h_cand(rl[i - ll.len()], r, t0, t1),
                                    tl,
                                ));
                                match h_cand(rl[i - ll.len()], r, t0, tl) {
                                    Some(ti2) => {},
                                    None => {},
                                }
                            }
                        }
                    },
                    None => {
                        let j = choose|j: int|
                            0 <= j < ll.len() && h_cand(ll[j], r, t0, t1) == Some(tl);
                        assert(lv[j] == ll[j]);
                        assert forall|i: int| 0 <= i < lv.len() implies (match #[trigger] h_cand(
                            lv[i],
                            r,
                            t0,
                            t1,
                        ) {
                            Some(ti) => tl <= ti,
                            None => true,
                        }) by {
                            if i < ll.len() {
                                assert(lv[i] == ll[i]);
                            } else {
                                assert(lv[i] == rl[i - ll.len()]);
                                assert(h_cand(rl[i - ll.len()], r, t0, tl) == restrict_cand(
                                    h_cand(rl[i - ll.len()], r, t0, t1),
                                    tl,
                                ));
                                assert(h_cand(rl[i - ll.len()], r, t0, tl) is None);
                            }
                        }
                    },
                }
            },
            None => {
                lemma_tree_best(n.right, r, t0, t1);
                match tree_cand(n.right, r, t0, t1) {
                    Some(tr) => {
                        let j = choose|j: int|
                            0 <= j < rl.len() && h_cand(rl[j], r, t0, t1) == Some(tr);
                        assert(lv[ll.len() + j] == rl[j]);
                        assert forall|i: int| 0 <= i < lv.len() implies (match #[trigger] h_cand(
                            lv[i],
                            r,
                            t0,
                            t1,
                        ) {
                            Some(ti) => tr <= ti,
                            None => true,
                        }) by {
                            if i < ll.len() {
                                assert(lv[i] == ll[i]);
                            } else {
                                assert(lv[i] == rl[i - ll.len()]);
                            }
                        }
                    },
                    None => {
                        assert forall|i: int| 0 <= i < lv.len() implies (#[trigger] h_cand(
                            lv[i],
                            r,
                            t0,
                            t1,
                        )) is None by {
                            if i < ll.len() {
                                assert(lv[i] == ll[i]);
                            } else {
                                assert(lv[i] == rl[i - ll.len()]);
                            }
                        }
                    },
                }
            },
        }
    }
}

/// The range-shrinking fold over a primitive collection reports
/// exactly the nearest hit over its members.
#[verifier::rlimit(100)]
proof fn lemma_list_best(s: Seq<Hittable>, i: int, r: Ray, t0: int, t1: int)
    requires
        all_prim(s),
        0 <= i <= s.len(),
    ensures
        is_best(s.subrange(0, i), r, t0, t1, crate::hittable::list_cand(s, i, r, t0, t1)),
    decreases i,
{
    if i <= 0 {
    } else {
        lemma_list_best(s, i - 1, r, t0, t1);
        let prefix = s.subrange(0, i);
        let shorter = s.subrange(0, i - 1);
        let prev = crate::hittable::list_cand(s, i - 1, r, t0, t1);
        let res = crate::hittable::list_cand(s, i, r, t0, t1);
        assert forall|j: int| 0 <= j < i implies prefix[j] == s[j] by {}
        assert forall|j: int| 0 <= j < i - 1 implies shorter[j] == s[j] by {}
        match prev {
            None => {
                // every earlier member reported nothing, so the fold
                // probes the new member with the full range
                let cur = h_cand(s[i - 1], r, t0, t1);
                assert(res == cur);
                match cur {
                    Some(t) => {
                        assert(h_cand(prefix[i - 1], r, t0, t1) == Some(t));
                        assert forall|j: int| 0 <= j < i implies (match #[trigger] h_cand(
                            prefix[j],
                            r,
                            t0,
                            t1,
                        ) {
                            Some(tj) => t <= tj,
                            None => true,
                        }) by {
                            if j < i - 1 {
                                assert(h_cand(shorter[j], r, t0, t1) is None);
                            }
                        }
                    },
                    None => {
                        assert forall|j: int| 0 <= j < i implies (#[trigger] h_cand(
                            prefix[j],
                            r,
                            t0,
                            t1,
                        )) is None by {
                            if j < i - 1 {
                                assert(h_cand(shorter[j], r, t0, t1) is None);
                            }
                        }
                    },
                }
            },
            Some(tp) => {
                let jw = choose|j: int|
                    0 <= j < i - 1 && #[trigger] h_cand(shorter[j], r, t0, t1) == Some(tp);
                assert(h_cand(prefix[jw], r, t0, t1) == Some(tp));
                lemma_prim_elig(s[jw], r, t0, t1);
                assert(tp < t1);
                lemma_prim_restrict(s[i - 1], r, t0, t1, tp);
                let cur = h_cand(s[i - 1], r, t0, tp);
                assert(cur == restrict_cand(h_cand(s[i - 1], r, t0, t1), tp));
                match cur {
                    Some(t) => {
                        assert(res == Some(t));
                        assert(t < tp);
                        assert(h_cand(prefix[i - 1], r, t0, t1) == Some(t));
                        assert forall|j: int| 0 <= j < i implies (match #[trigger] h_cand(
                            prefix[j],
                            r,
                            t0,
                            t1,
                        ) {
                            Some(tj) => t <= tj,
                            None => true,
                        }) by {
                            if j < i - 1 {
                                assert(h_cand(shorter[j], r, t0, t1) == h_cand(
                                    prefix[j],
                                    r,
                                    t0,
                                    t1,
                                ));
                            }
                        }
                    },
                    None => {
                        assert(res == Some(tp));
                        assert forall|j: int| 0 <= j < i implies (match #[trigger] h_cand(
                            prefix[j],
                            r,
                            t0,
                            t1,
                        ) {
                            Some(tj) => tp <= tj,
                            None => true,
                        }) by {
                            if j < i - 1 {
                                assert(h_cand(shorter[j], r, t0, t1) == h_cand(
                                    prefix[j],
                                    r,
                                    t0,
                                    t1,
                                ));
                            }
                        }
                    },
                }
            },
        }
    }
}

/// Nearest hits agree across collections with the same member set.
proof fn lemma_best_unique(a: Seq<Hittable>, b: Seq<Hittable>, r: Ray, t0: int, t1: int, ra: Option<
    int,
>, rb: Option<int>)
    requires
        is_best(a, r, t0, t1, ra),
        is_best(b, r, t0, t1, rb),
        a.to_set() == b.to_set(),
    ensures
        ra == rb,
{
    match (ra, rb) {
        (None, None) => {},
        (Some(ta), None) => {
            let i = choose|i: int| 0 <= i < a.len() && #[trigger] h_cand(a[i], r, t0, t1)
                == Some(ta);
            assert(a.contains(a[i]));
            assert(a.to_set().contains(a[i]));
            assert(b.to_set().contains(a[i]));
            assert(b.contains(a[i]));
            let j = choose|j: int| 0 <= j < b.len() && b[j] == a[i];
            assert(h_cand(b[j], r, t0, t1) == Some(ta));
            assert(false);
        },
        (None, Some(tb)) => {
            let j = choose|j: int| 0 <= j < b.len() && #[trigger] h_cand(b[j], r, t0, t1)
                == Some(tb);
            assert(b.contains(b[j]));
            assert(b.to_set().contains(b[j]));
            assert(a.to_set().contains(b[j]));
            assert(a.contains(b[j]));
            let i = choose|i: int| 0 <= i < a.len() && a[i] == b[j];
            assert(h_cand(a[i], r, t0, t1) == Some(tb));
            assert(false);
        },
        (Some(ta), Some(tb)) => {
            let i = choose|i: int| 0 <= i < a.len() && #[trigger] h_cand(a[i], r, t0, t1)
                == Some(ta);
            assert(a.contains(a[i]));
            assert(a.to_set().contains(a[i]));
            assert(b.to_set().contains(a[i]));
            assert(b.contains(a[i]));
            let j = choose|j: int| 0 <= j < b.len() && b[j] == a[i];
            assert(h_cand(b[j], r, t0, t1) == Some(ta));
            assert(tb <= ta);
            let j2 = choose|j2: int| 0 <= j2 < b.len() && #[trigger] h_cand(b[j2], r, t0, t1)
                == Some(tb);
            assert(b.contains(b[j2]));
            assert(b.to_set().contains(b[j2]));
            assert(a.to_set().contains(b[j2]));
            assert(a.contains(b[j2]));
            let i2 = choose|i2: int| 0 <= i2 < a.len() && a[i2] == b[j2];
            assert(h_cand(a[i2], r, t0, t1) == Some(tb));
            assert(ta <= tb);
        },
    }
}

/// A hierarchy built over primitives answers every ray query with
/// exactly the parameter a brute-force linear scan over the same
/// primitives reports: the pruned traversal loses no hit and invents
/// none.
pub proof fn lemma_bvh_matches_linear_scan(
    n: BVHNode,
    s: Seq<Hittable>,
    r: Ray,
    t0: int,
    t1: int,
)
    requires
        bvh_wf(n),
        node_prim(n),
        all_prim(s),
        bvh_leaves(n).to_set() == s.to_set(),
    ensures
        bvh_cand(n, r, t0, t1) == crate::hittable::list_cand(s, s.len() as int, r, t0, t1),
{
    lemma_node_best(n, r, t0, t1);
    lemma_list_best(s, s.len() as int, r, t0, t1);
    assert(s.subrange(0, s.len() as int) =~= s);
    lemma_best_unique(
        bvh_leaves(n),
        s,
        r,
        t0,
        t1,
        bvh_cand(n, r, t0, t1),
        crate::hittable::list_cand(s, s.len() as int, r, t0, t1),
    );
}

/// Primitive-only subtrees are deterministic, so their executable
/// traversal is pinned to `bvh_cand` by the `hit` contracts.
pub proof fn lemma_node_prim_det(n: BVHNode)
    requires
        node_prim(n),
    ensures
        bvh_det(n),
    decreases n,
{
    lemma_tree_prim_det(n.left);
    lemma_tree_prim_det(n.right);
}

proof fn lemma_tree_prim_det(t: BvhTree)
    requires
        tree_prim(t),
    ensures
        tree_det(t),
    decreases t,
{
    match t {
        BvhTree::Leaf(_) => {},
        BvhTree::Empty => {},
        BvhTree::Node(n) => {
            lemma_node_prim_det(*n);
        },
    }
}

/// Primitive-only collections are deterministic, so their executable
/// fold is pinned to `list_cand` by the `hit` contracts.
pub proof fn lemma_all_prim_det(s: Seq<Hittable>, i: int)
    requires
        all_prim(s),
        0 <= i <= s.len(),
    ensures
        crate::hittable::list_det(s, i),
    decreases i,
{
    if i > 0 {
        lemma_all_prim_det(s, i - 1);
        assert(prim(s[i - 1]));
        match s[i - 1] {
            Hittable::Sphere(_) => {
                assert(h_det(s[i - 1]));
            },
            Hittable::Quad(_) => {
                assert(h_det(s[i - 1]));
            },
            _ => {
                assert(false);
            },
        }
    }
}

/// Every node's stored box is exactly the union of its children's
/// boxes, all the way down the hierarchy.
pub proof fn lemma_node_box_exact(n: BVHNode)
    requires
        bvh_wf(n),
    ensures
        n.aabb == combine_spec(tree_bbox(n.left), tree_bbox(n.right)),
        box_contains(n.aabb, tree_bbox(n.left)),
        box_contains(n.aabb, tree_bbox(n.right)),
{
}

/// Every element of the sequence is a well-formed hittable.
pub open spec fn all_wf(s: Seq<Hittable>) -> bool {
    forall|i: int| 0 <= i < s.len() ==> h_wf(#[trigger] s[i])
}

/// Every element is deterministic.
pub open spec fn all_det(s: Seq<Hittable>) -> bool {
    forall|i: int| 0 <= i < s.len() ==> h_det(#[trigger] s[i])
}

/// Equal multisets have equal member sets.
proof fn lemma_multiset_to_set(a: Seq<Hittable>, b: Seq<Hittable>)
    requires
        a.to_multiset() == b.to_multiset(),
    ensures
        a.to_set() == b.to_set(),
{
    broadcast use vstd::seq_lib::group_to_multiset_ensures;

    assert forall|x: Hittable| a.to_set().contains(x) implies b.to_set().contains(x) by {
        assert(a.contains(x));
        assert(a.to_multiset().count(x) > 0);
        assert(b.contains(x));
    }
    assert forall|x: Hittable| b.to_set().contains(x) implies a.to_set().contains(x) by {
        assert(b.contains(x));
        assert(b.to_multiset().count(x) > 0);
        assert(a.contains(x));
    }
    assert(a.to_set() =~= b.to_set());
}

/// Concatenation unions the member sets.
proof fn lemma_concat_to_set(a: Seq<Hittable>, b: Seq<Hittable>)
    ensures
        (a + b).to_set() == a.to_set().union(b.to_set()),
{
    assert forall|x: Hittable| (a + b).to_set().contains(x) implies a.to_set().union(
        b.to_set(),
    ).contains(x) by {
        let i = choose|i: int| 0 <= i < (a + b).len() && (a + b)[i] == x;
        if i < a.len() {
            assert(a[i] == x);
            assert(a.contains(x));
        } else {
            assert(b[i - a.len()] == x);
            assert(b.contains(x));
        }
    }
    assert forall|x: Hittable| a.to_set().union(b.to_set()).contains(x) implies (a
        + b).to_set().contains(x) by {
        if a.to_set().contains(x) {
            let i = choose|i: int| 0 <= i < a.len() && a[i] == x;
            assert((a + b)[i] == x);
        } else {
            let i = choose|i: int| 0 <= i < b.len() && b[i] == x;
            assert((a + b)[i + a.len()] == x);
        }
    }
    assert((a + b).to_set() =~= a.to_set().union(b.to_set()));
}

/// Splitting a sequence splits its member set.
proof fn lemma_split_to_set(s: Seq<Hittable>, mid: int)
    requires
        0 <= mid <= s.len(),
    ensures
        s.subrange(0, mid).to_set().union(s.subrange(mid, s.len() as int).to_set())
            == s.to_set(),
{
    let a = s.subrange(0, mid);
    let b = s.subrange(mid, s.len() as int);
    assert forall|x: Hittable| s.to_set().contains(x) implies a.to_set().union(
        b.to_set(),
    ).contains(x) by {
        let i = choose|i: int| 0 <= i < s.len() && s[i] == x;
        if i < mid {
            assert(a[i] == x);
            assert(a.contains(x));
        } else {
            assert(b[i - mid] == x);
            assert(b.contains(x));
        }
    }
    assert forall|x: Hittable| a.to_set().union(b.to_set()).contains(x) implies s.to_set().contains(
        x,
    ) by {
        if a.to_set().contains(x) {
            let i = choose|i: int| 0 <= i < a.len() && a[i] == x;
            assert(s[i] == x);
        } else {
            let i = choose|i: int| 0 <= i < b.len() && b[i] == x;
            assert(s[i + mid] == x);
        }
    }
    assert(a.to_set().union(b.to_set()) =~= s.to_set());
}

/// The sort key: the low end of the box on the chosen axis.
fn axis_key(h: &Hittable, axis: usize) -> (r: i64)
    ensures
        r == axis_key_spec(*h, axis as int),
{
    let bb = h.bounding_box();
    if axis == 0 {
        bb.x.lo
    } else if axis == 1 {
        bb.y.lo
    } else {
        bb.z.lo
    }
}

/// The sort key as a spec value.
pub open spec fn axis_key_spec(h: Hittable, axis: int) -> i64 {
    let bb = h_bbox(h);
    if axis == 0 {
        bb.x.lo
    } else if axis == 1 {
        bb.y.lo
    } else {
        bb.z.lo
    }
}

/// Stable selection sort by box start coordinate along the chosen
/// axis: repeatedly move the earliest minimal-key member over.  The
/// result is a permutation of the input (equal keys keep their
/// relative order because the scan takes the first minimum).
/// The index of the earliest member holding the minimal key along
/// the axis.
pub open spec fn first_min_index(s: Seq<Hittable>, axis: int) -> int
    decreases s.len(),
{
    if s.len() <= 1 {
        0
    } else {
        let rest = first_min_index(s.subrange(1, s.len() as int), axis) + 1;
        if axis_key_spec(s[0], axis) <= axis_key_spec(s[rest], axis) {
            0
        } else {
            rest
        }
    }
}

/// The stable sort by box start along the axis: repeatedly move the
/// earliest minimal-key member to the front, so members with equal
/// keys keep their relative order.
pub open spec fn stable_sorted(s: Seq<Hittable>, axis: int) -> Seq<Hittable>
    decreases s.len(),
{
    if s.len() == 0 {
        s
    } else {
        let k = first_min_index(s, axis);
        if 0 <= k < s.len() {
            seq![s[k]] + stable_sorted(s.remove(k), axis)
        } else {
            s
        }
    }
}

/// The earliest minimal index is in range, holds the minimal key,
/// and every earlier member's key is strictly larger.
proof fn lemma_first_min_char(s: Seq<Hittable>, axis: int)
    requires
        s.len() > 0,
    ensures
        0 <= first_min_index(s, axis) < s.len(),
        forall|j: int|
            0 <= j < s.len() ==> axis_key_spec(s[first_min_index(s, axis)], axis)
                <= axis_key_spec(#[trigger] s[j], axis),
        forall|j: int|
            0 <= j < first_min_index(s, axis) ==> axis_key_spec(#[trigger] s[j], axis)
                > axis_key_spec(s[first_min_index(s, axis)], axis),
    decreases s.len(),
{
    if s.len() > 1 {
        let tail = s.subrange(1, s.len() as int);
        lemma_first_min_char(tail, axis);
        assert(forall|j: int| 0 <= j < tail.len() ==> tail[j] == s[j + 1]);
        let ft = first_min_index(tail, axis);
        let rest = ft + 1;
        assert(s[rest] == tail[ft]);
        let f = first_min_index(s, axis);
        if axis_key_spec(s[0], axis) <= axis_key_spec(s[rest], axis) {
            assert(f == 0);
            assert forall|j: int| 0 <= j < s.len() implies axis_key_spec(s[f], axis)
                <= axis_key_spec(#[trigger] s[j], axis) by {
                if j >= 1 {
                    assert(axis_key_spec(tail[ft], axis) <= axis_key_spec(tail[j - 1], axis));
                    assert(tail[j - 1] == s[j]);
                }
            }
        } else {
            assert(f == rest);
            assert forall|j: int| 0 <= j < s.len() implies axis_key_spec(s[f], axis)
                <= axis_key_spec(#[trigger] s[j], axis) by {
                if j >= 1 {
                    assert(axis_key_spec(tail[ft], axis) <= axis_key_spec(tail[j - 1], axis));
                    assert(tail[j - 1] == s[j]);
                }
            }
            assert forall|j: int| 0 <= j < f implies axis_key_spec(#[trigger] s[j], axis)
                > axis_key_spec(s[f], axis) by {
                if j >= 1 {
                    assert(axis_key_spec(tail[j - 1], axis) > axis_key_spec(tail[ft], axis));
                    assert(tail[j - 1] == s[j]);
                }
            }
        }
    }
}

/// Any index that holds the minimal key, with strictly larger keys
/// before it, is the earliest minimal index.
proof fn lemma_first_min_unique(s: Seq<Hittable>, axis: int, b: int)
    requires
        0 <= b < s.len(),
        forall|j: int|
            0 <= j < s.len() ==> axis_key_spec(s[b], axis) <= axis_key_spec(
                #[trigger] s[j],
                axis,
            ),
        forall|j: int|
            0 <= j < b ==> axis_key_spec(#[trigger] s[j], axis) > axis_key_spec(s[b], axis),
    ensures
        first_min_index(s, axis) == b,
{
    lemma_first_min_char(s, axis);
    let f = first_min_index(s, axis);
    if f < b {
        assert(axis_key_spec(s[f], axis) > axis_key_spec(s[b], axis));
        assert(axis_key_spec(s[f], axis) <= axis_key_spec(s[b], axis));
    } else if b < f {
        assert(axis_key_spec(s[b], axis) > axis_key_spec(s[f], axis));
        assert(axis_key_spec(s[b], axis) <= axis_key_spec(s[f], axis));
    }
}

/// The stable sort keeps the length.
pub proof fn lemma_stable_sorted_len(s: Seq<Hittable>, axis: int)
    ensures
        stable_sorted(s, axis).len() == s.len(),
    decreases s.len(),
{
    if s.len() > 0 {
        lemma_first_min_char(s, axis);
        lemma_stable_sorted_len(s.remove(first_min_index(s, axis)), axis);
    }
}

fn sort_by_axis(v: &mut Vec<Hittable>, axis: usize)
    ensures
        final(v)@ == stable_sorted(old(v)@, axis as int),
        final(v)@.to_multiset() == old(v)@.to_multiset(),
        final(v)@.len() == old(v)@.len(),
        sorted_by_key(final(v)@, axis as int),
{
    broadcast use vstd::seq_lib::group_to_multiset_ensures, vstd::multiset::group_multiset_axioms, vstd::multiset::group_multiset_properties;

    let mut out: Vec<Hittable> = Vec::new();
    let ghost orig = v@;
    proof {
        assert(out@ + stable_sorted(v@, axis as int) =~= stable_sorted(orig, axis as int));
    }
    while v.len() > 0
        invariant
            out@ + stable_sorted(v@, axis as int) == stable_sorted(orig, axis as int),
            out@.to_multiset().add(v@.to_multiset()) == orig.to_multiset(),
            out@.len() + v@.len() == orig.len(),
            sorted_by_key(out@, axis as int),
            forall|i: int, j: int|
                0 <= i < out@.len() && 0 <= j < v@.len() ==> axis_key_spec(
                    #[trigger] out@[i],
                    axis as int,
                ) <= axis_key_spec(#[trigger] v@[j], axis as int),
        decreases v@.len(),
    {
        let mut best: usize = 0;
        let mut k: usize = 1;
        while k < v.len()
            invariant
                best < v@.len(),
                k <= v@.len(),
                v@.len() > 0,
                forall|j: int|
                    0 <= j < k ==> axis_key_spec(v@[best as int], axis as int) <= axis_key_spec(
                        #[trigger] v@[j],
                        axis as int,
                    ),
                forall|j: int|
                    0 <= j < best ==> axis_key_spec(#[trigger] v@[j], axis as int)
                        > axis_key_spec(v@[best as int], axis as int),
            decreases v@.len() - k,
        {
            if axis_key(&v[k], axis) < axis_key(&v[best], axis) {
                best = k;
            }
            k = k + 1;
        }
        let ghost pre = v@;
        let ghost out_pre = out@;
        let x = v.remove(best);
        proof {
            assert(x == pre[best as int]);
            lemma_first_min_unique(pre, axis as int, best as int);
            assert(stable_sorted(pre, axis as int) == seq![x] + stable_sorted(
                v@,
                axis as int,
            ));
            pre.to_multiset_ensures();
            out@.to_multiset_ensures();
            assert(pre.contains(x));
            assert(pre.to_multiset().count(x) > 0);
            assert(pre.remove(best as int).to_multiset() =~= pre.to_multiset().remove(x));
            assert(out@.push(x).to_multiset() =~= out@.to_multiset().insert(x));
            assert(out@.push(x).to_multiset().add(v@.to_multiset()) =~= orig.to_multiset());
            assert forall|j: int| 0 <= j < v@.len() implies axis_key_spec(x, axis as int)
                <= axis_key_spec(#[trigger] v@[j], axis as int) by {
                if j < best {
                    assert(v@[j] == pre[j]);
                } else {
                    assert(v@[j] == pre[j + 1]);
                }
            }
        }
        out.push(x);
        proof {
            assert(out@ + stable_sorted(v@, axis as int) =~= out_pre + (seq![x] + stable_sorted(
                v@,
                axis as int,
            )));
        }
    }
    proof {
        assert(out@ + stable_sorted(v@, axis as int) =~= out@);
    }
    *v = out;
}

/// The keys are in ascending order.
pub open spec fn sorted_by_key(s: Seq<Hittable>, axis: int) -> bool {
    forall|i: int, j: int|
        0 <= i < j < s.len() ==> axis_key_spec(#[trigger] s[i], axis) <= axis_key_spec(
            #[trigger] s[j],
            axis,
        )
}

/// The combined box of the first `i` members of a collection.
pub open spec fn seq_box_union(s: Seq<Hittable>, i: int) -> AABB
    decreases i,
{
    if i <= 1 {
        h_bbox(s[0])
    } else {
        combine_spec(seq_box_union(s, i - 1), h_bbox(s[i - 1]))
    }
}

/// The node was built by a stable sorted median split: the members,
/// stably sorted by box start along the longest axis of their
/// combined box (equal keys keep their relative order), split at the
/// midpoint into the left child's leaf set (the low half) and the
/// right child's (the high half).
pub open spec fn median_split(r: BVHNode, s: Seq<Hittable>) -> bool {
    let t = stable_sorted(s, longest_axis_spec(seq_box_union(s, s.len() as int)));
    &&& tree_leaves(r.left).to_set() == t.subrange(0, s.len() as int / 2).to_set()
    &&& tree_leaves(r.right).to_set() == t.subrange(s.len() as int / 2, s.len() as int).to_set()
}

impl BVHNode {
    /// Build a node over the range `[start, end)` of at least one
    /// hittable.  One member becomes a leaf beside the empty child;
    /// two become the two leaves in order; more are split at the
    /// median after a sort by box start along the longest axis of the
    /// combined box.  Each node's box is the exact union of its
    /// children's boxes.
    pub fn new(objects: Vec<Hittable>, start: usize, end: usize) -> (r: BVHNode)
        requires
            start < end,
            end <= objects.len(),
            all_wf(objects@),
        ensures
            bvh_wf(r),
            bvh_leaves(r).to_set() == objects@.subrange(start as int, end as int).to_set(),
            all_det(objects@) ==> bvh_det(r),
            end - start == 1 ==> r.left == BvhTree::Leaf(Box::new(objects@[start as int]))
                && r.right == BvhTree::Empty,
            end - start == 2 ==> r.left == BvhTree::Leaf(Box::new(objects@[start as int]))
                && r.right == BvhTree::Leaf(Box::new(objects@[start as int + 1])),
            end - start > 2 ==> median_split(r, objects@.subrange(start as int, end as int)),
    {
        let mut v = objects;
        v.truncate(end);
        let sub = v.split_off(start);
        proof {
            assert(sub@ =~= objects@.subrange(start as int, end as int));
            assert(all_wf(sub@));
            if all_det(objects@) {
                assert(all_det(sub@));
            }
        }
        Self::build_node(sub)
    }

    /// Build a tree over the whole collection (at least one member).
    pub fn from(objects: Vec<Hittable>) -> (r: BVHNode)
        requires
            objects.len() >= 1,
            all_wf(objects@),
        ensures
            bvh_wf(r),
            bvh_leaves(r).to_set() == objects@.to_set(),
            all_det(objects@) ==> bvh_det(r),
            objects@.len() == 1 ==> r.left == BvhTree::Leaf(Box::new(objects@[0]))
                && r.right == BvhTree::Empty,
            objects@.len() == 2 ==> r.left == BvhTree::Leaf(Box::new(objects@[0]))
                && r.right == BvhTree::Leaf(Box::new(objects@[1])),
            objects@.len() > 2 ==> median_split(r, objects@),
    {
        proof {
            assert(objects@.subrange(0, objects@.len() as int) =~= objects@);
        }
        let n = objects.len();
        Self::new(objects, 0, n)
    }

    /// Recursive node construction over an owned collection.
    fn build_node(objects: Vec<Hittable>) -> (r: BVHNode)
        requires
            objects.len() >= 1,
            all_wf(objects@),
        ensures
            bvh_wf(r),
            bvh_leaves(r).to_set() == objects@.to_set(),
            all_det(objects@) ==> bvh_det(r),
            objects@.len() == 1 ==> r.left == BvhTree::Leaf(Box::new(objects@[0]))
                && r.right == BvhTree::Empty,
            objects@.len() == 2 ==> r.left == BvhTree::Leaf(Box::new(objects@[0]))
                && r.right == BvhTree::Leaf(Box::new(objects@[1])),
            objects@.len() > 2 ==> median_split(r, objects@),
        decreases objects@.len(), 0int,
    {
        broadcast use vstd::seq_lib::group_to_multiset_ensures;

        let ghost orig = objects@;
        let mut v = objects;
        let mut bb = v[0].bounding_box();
        proof {
            crate::hittable::lemma_h_bbox_wf(v@[0]);
        }
        let mut i: usize = 1;
        while i < v.len()
            invariant
                v@ == orig,
                all_wf(orig),
                1 <= i <= v@.len(),
                bb == seq_box_union(orig, i as int),
                crate::aabb::wf_aabb(bb),
            decreases v@.len() - i,
        {
            proof {
                crate::hittable::lemma_h_bbox_wf(v@[i as int]);
            }
            let obb = v[i].bounding_box();
            bb = AABB::combine_bounds(&bb, &obb);
            i = i + 1;
        }
        let axis = bb.longest_axis_index();
        if v.len() == 1 {
            let a = match v.pop() {
                Some(x) => x,
                None => {
                    proof {
                        assert(false);
                    }
                    vstd::pervasive::unreached()
                },
            };
            proof {
                assert(a == orig[0]);
                crate::hittable::lemma_h_bbox_wf(a);
            }
            let la = a.bounding_box();
            let none_box = AABB::new_empty();
            let aabb = AABB::combine_bounds(&la, &none_box);
            let node = BVHNode { left: BvhTree::Leaf(Box::new(a)), right: BvhTree::Empty, aabb };
            proof {
                assert(none_box == empty_tree_box());
                assert(node.aabb == combine_spec(tree_bbox(node.left), tree_bbox(node.right)));
                assert(combine_spec(none_box, h_bbox(a)) == h_bbox(a));
                assert(node.aabb == h_bbox(a));
                assert(bvh_leaves(node) =~= seq![a]);
                assert(orig =~= seq![a]);
            }
            node
        } else if v.len() == 2 {
            let b = match v.pop() {
                Some(x) => x,
                None => {
                    proof {
                        assert(false);
                    }
                    vstd::pervasive::unreached()
                },
            };
            let a = match v.pop() {
                Some(x) => x,
                None => {
                    proof {
                        assert(false);
                    }
                    vstd::pervasive::unreached()
                },
            };
            proof {
                assert(a == orig[0] && b == orig[1]);
                crate::hittable::lemma_h_bbox_wf(a);
                crate::hittable::lemma_h_bbox_wf(b);
            }
            let la = a.bounding_box();
            let lb = b.bounding_box();
            let aabb = AABB::combine_bounds(&la, &lb);
            let node = BVHNode { left: BvhTree::Leaf(Box::new(a)), right: BvhTree::Leaf(Box::new(b)), aabb };
            proof {
                lemma_two_leaves_set(orig, node);
            }
            node
        } else {
            sort_by_axis(&mut v, axis);
            proof {
                lemma_multiset_to_set(v@, orig);
                assert forall|j: int| 0 <= j < v@.len() implies h_wf(#[trigger] v@[j]) by {
                    assert(v@.to_multiset().count(v@[j]) > 0);
                    assert(orig.to_multiset().count(v@[j]) > 0);
                    assert(orig.contains(v@[j]));
                }
                if all_det(orig) {
                    assert forall|j: int| 0 <= j < v@.len() implies h_det(#[trigger] v@[j]) by {
                        assert(v@.to_multiset().count(v@[j]) > 0);
                        assert(orig.to_multiset().count(v@[j]) > 0);
                        assert(orig.contains(v@[j]));
                    }
                }
            }
            let ghost sorted = v@;
            let mid = v.len() / 2;
            let right_v = v.split_off(mid);
            proof {
                assert(all_wf(v@));
                assert(all_wf(right_v@));
                if all_det(orig) {
                    assert(all_det(v@));
                    assert(all_det(right_v@));
                }
                lemma_split_to_set(sorted, mid as int);
                assert(v@ =~= sorted.subrange(0, mid as int));
                assert(right_v@ =~= sorted.subrange(mid as int, sorted.len() as int));
            }
            let left_tree = Self::build_tree(v);
            let right_tree = Self::build_tree(right_v);
            proof {
                lemma_tree_bbox_wf(left_tree);
                lemma_tree_bbox_wf(right_tree);
            }
            let lbb = left_tree.bounding_box();
            let rbb = right_tree.bounding_box();
            let aabb = AABB::combine_bounds(&lbb, &rbb);
            let node = BVHNode { left: left_tree, right: right_tree, aabb };
            proof {
                lemma_concat_to_set(tree_leaves(node.left), tree_leaves(node.right));
                lemma_stable_sorted_len(
                    orig,
                    longest_axis_spec(seq_box_union(orig, orig.len() as int)),
                );
                assert(sorted == stable_sorted(
                    orig,
                    longest_axis_spec(seq_box_union(orig, orig.len() as int)),
                ));
                assert(tree_leaves(node.left).to_set() == sorted.subrange(
                    0,
                    orig.len() as int / 2,
                ).to_set());
                assert(tree_leaves(node.right).to_set() == sorted.subrange(
                    orig.len() as int / 2,
                    orig.len() as int,
                ).to_set());
                assert(median_split(node, orig));
            }
            node
        }
    }

    /// Recursive child construction: one member becomes a leaf.
    fn build_tree(objects: Vec<Hittable>) -> (r: BvhTree)
        requires
            objects.len() >= 1,
            all_wf(objects@),
        ensures
            tree_wf(r),
            tree_leaves(r).to_set() == objects@.to_set(),
            all_det(objects@) ==> tree_det(r),
            !(r is Empty),
        decreases objects@.len(), 1int,
    {
        if objects.len() == 1 {
            let mut v = objects;
            let ghost orig = v@;
            let a = match v.pop() {
                Some(x) => x,
                None => {
                    proof {
                        assert(false);
                    }
                    vstd::pervasive::unreached()
                },
            };
            let leaf = BvhTree::Leaf(Box::new(a));
            proof {
                assert(tree_leaves(leaf) =~= seq![a]);
                assert forall|x: Hittable| tree_leaves(leaf).to_set().contains(x) implies orig.to_set().contains(
                    x,
                ) by {
                    assert(x == a);
                    assert(orig[0] == a);
                }
                assert forall|x: Hittable| orig.to_set().contains(x) implies tree_leaves(
                    leaf,
                ).to_set().contains(x) by {
                    let i = choose|i: int| 0 <= i < orig.len() && orig[i] == x;
                    assert(i == 0);
                    assert(tree_leaves(leaf)[0] == x);
                }
                assert(tree_leaves(leaf).to_set() =~= orig.to_set());
            }
            leaf
        } else {
            BvhTree::Node(Box::new(Self::build_node(objects)))
        }
    }
}

proof fn lemma_two_leaves_set(orig: Seq<Hittable>, node: BVHNode)
    requires
        orig.len() == 2,
        node.left == BvhTree::Leaf(Box::new(orig[0])),
        node.right == BvhTree::Leaf(Box::new(orig[1])),
    ensures
        bvh_leaves(node).to_set() == orig.to_set(),
{
    let lv = bvh_leaves(node);
    assert(lv =~= seq![orig[0], orig[1]]);
    assert forall|x: Hittable| lv.to_set().contains(x) implies orig.to_set().contains(x) by {
        let i = choose|i: int| 0 <= i < lv.len() && lv[i] == x;
        assert(orig[i] == x);
    }
    assert forall|x: Hittable| orig.to_set().contains(x) implies lv.to_set().contains(x) by {
        let i = choose|i: int| 0 <= i < orig.len() && orig[i] == x;
        assert(lv[i] == x);
    }
    assert(lv.to_set() =~= orig.to_set());
}

impl BvhTree {
    /// The box of this child.
    pub fn bounding_box(&self) -> (r: AABB)
        ensures
            r == tree_bbox(*self),
    {
        match self {
            BvhTree::Leaf(h) => h.bounding_box(),
            BvhTree::Node(n) => n.aabb,
            BvhTree::Empty => AABB::new_empty(),
        }
    }

    /// Probe this child.
    pub fn hit<'a>(
        &'a self,
        ray: &Ray,
        t0: i64,
        t1: i64,
        record: &mut HitRecord<'a>,
        rng: &mut RandomSource,
    ) -> (res: bool)
        requires
            tree_wf(*self),
            wf_ray(*ray),
            -T_INF <= t0 <= T_INF,
            -T_INF <= t1 <= T_INF,
            hitrec_ok(*old(record)),
            old(record).in_ray == *ray,
        ensures
            !res ==> *final(record) == *old(record),
            res ==> elig(tree_bbox(*self), *ray, t0 as int, t1 as int, final(record).t as int),
            res ==> hitrec_ok(*final(record)) && final(record).in_ray == *ray,
            res ==> (final(record).mat matches Some(m) && wf_material(*m)),
            res && tree_prim(*self) ==> crate::hittable::record_from_prim(
                tree_leaves(*self),
                *ray,
                t0 as int,
                t1 as int,
                *final(record),
            ),
            tree_det(*self) ==> (match tree_cand(*self, *ray, t0 as int, t1 as int) {
                Some(t) => res && final(record).t == t,
                None => !res,
            }),
        decreases *self, 1int,
    {
        match self {
            BvhTree::Leaf(h) => {
                let res = h.hit(ray, t0, t1, record, rng);
                proof {
                    if res && tree_prim(*self) {
                        assert(tree_leaves(*self)[0] == **h);
                        assert(crate::hittable::prim_fills(tree_leaves(*self)[0], *ray, *record));
                        assert(h_cand(**h, *ray, t0 as int, t1 as int) == Some(record.t as int));
                    }
                }
                res
            },
            BvhTree::Node(n) => n.hit(ray, t0, t1, record, rng),
            BvhTree::Empty => false,
        }
    }
}

impl BVHNode {
    /// Append references to every leaf of the subtree, left to
    /// right, to `out`.
    pub fn collect_leaves<'a>(&'a self, out: &mut Vec<&'a Hittable>)
        ensures
            final(out)@.len() == old(out)@.len() + bvh_leaves(*self).len(),
            forall|i: int|
                0 <= i < old(out)@.len() ==> final(out)@[i] == old(out)@[i],
            forall|i: int|
                0 <= i < bvh_leaves(*self).len() ==> *final(out)@[old(out)@.len() + i]
                    == bvh_leaves(*self)[i],
        decreases *self, 1int,
    {
        self.left.collect_tree_leaves(out);
        self.right.collect_tree_leaves(out);
    }
}

impl BvhTree {
    /// Append references to every leaf of this child to `out`.
    pub fn collect_tree_leaves<'a>(&'a self, out: &mut Vec<&'a Hittable>)
        ensures
            final(out)@.len() == old(out)@.len() + tree_leaves(*self).len(),
            forall|i: int|
                0 <= i < old(out)@.len() ==> final(out)@[i] == old(out)@[i],
            forall|i: int|
                0 <= i < tree_leaves(*self).len() ==> *final(out)@[old(out)@.len() + i]
                    == tree_leaves(*self)[i],
        decreases *self, 2int,
    {
        match self {
            BvhTree::Leaf(h) => {
                out.push(&**h);
            },
            BvhTree::Node(n) => {
                n.collect_leaves(out);
            },
            BvhTree::Empty => {
            },
        }
    }
}

impl BVHNode {
    /// Pruned traversal: reject in one box test when possible, probe
    /// the left child with the full range, then the right child with
    /// the range shrunk to the left hit, so only a strictly closer
    /// right hit overwrites.
    pub fn hit<'a>(
        &'a self,
        ray: &Ray,
        t0: i64,
        t1: i64,
        record: &mut HitRecord<'a>,
        rng: &mut RandomSource,
    ) -> (res: bool)
        requires
            bvh_wf(*self),
            wf_ray(*ray),
            -T_INF <= t0 <= T_INF,
            -T_INF <= t1 <= T_INF,
            hitrec_ok(*old(record)),
            old(record).in_ray == *ray,
        ensures
            !res ==> *final(record) == *old(record),
            res ==> elig(self.aabb, *ray, t0 as int, t1 as int, final(record).t as int),
            res ==> hitrec_ok(*final(record)) && final(record).in_ray == *ray,
            res ==> (final(record).mat matches Some(m) && wf_material(*m)),
            res && node_prim(*self) ==> crate::hittable::record_from_prim(
                bvh_leaves(*self),
                *ray,
                t0 as int,
                t1 as int,
                *final(record),
            ),
            bvh_det(*self) ==> (match bvh_cand(*self, *ray, t0 as int, t1 as int) {
                Some(t) => res && final(record).t == t,
                None => !res,
            }),
        decreases *self, 0int,
    {
        if !self.aabb.hit(ray, t0, t1) {
            return false;
        }
        let hit_left = self.left.hit(ray, t0, t1, record, rng);
        let new_t1 = if hit_left {
            record.t
        } else {
            t1
        };
        let hit_right = self.right.hit(ray, t0, new_t1, record, rng);
        proof {
            if hit_left && !hit_right {
                crate::aabb::lemma_point_inside_widen(
                    tree_bbox(self.left),
                    self.aabb,
                    *ray,
                    final(record).t as int,
                    FX_ONE as int,
                );
            }
            if hit_right {
                crate::aabb::lemma_point_inside_widen(
                    tree_bbox(self.right),
                    self.aabb,
                    *ray,
                    final(record).t as int,
                    FX_ONE as int,
                );
            }
            if node_prim(*self) && (hit_left || hit_right) {
                let lv = bvh_leaves(*self);
                let ll = tree_leaves(self.left);
                let rl = tree_leaves(self.right);
                lemma_leaves_prim(self.right);
                if hit_right {
                    let j = choose|j: int|
                        0 <= j < rl.len() && #[trigger] crate::hittable::prim_fills(
                            rl[j],
                            *ray,
                            *record,
                        ) && h_cand(rl[j], *ray, t0 as int, new_t1 as int) == Some(
                            record.t as int,
                        );
                    lemma_prim_full_cand(
                        rl[j],
                        *ray,
                        t0 as int,
                        new_t1 as int,
                        t1 as int,
                        record.t as int,
                    );
                    assert(lv[ll.len() + j] == rl[j]);
                    assert(crate::hittable::prim_fills(lv[ll.len() + j], *ray, *record));
                } else {
                    let i = choose|i: int|
                        0 <= i < ll.len() && #[trigger] crate::hittable::prim_fills(
                            ll[i],
                            *ray,
                            *record,
                        ) && h_cand(ll[i], *ray, t0 as int, t1 as int) == Some(record.t as int);
                    assert(lv[i] == ll[i]);
                    assert(crate::hittable::prim_fills(lv[i], *ray, *record));
                }
            }
        }
        hit_left || hit_right
    }
}

} // verus!
