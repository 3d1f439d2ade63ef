//! Hashed value-noise generator: a pool of random values indexed
//! through three shuffled permutation tables.

use vstd::prelude::*;

use crate::fixed::{div_trunc_i128, tdiv, FX_ONE};
use crate::rng::RandomSource;
use crate::vector::{vec_bounded, Vec3};

verus! {

broadcast use vstd::seq_lib::group_to_multiset_ensures, vstd::multiset::group_multiset_axioms;

/// Number of entries in the value pool and each permutation table.
pub const POOL_SIZE: usize = 256;

/// The noise generator: pool values are fixed-point numbers in
/// `[0, 1)`; the permutation tables hold indices below `POOL_SIZE`.
pub struct Perlin {
    pub pool: Vec<i64>,
    pub perm_x: Vec<usize>,
    pub perm_y: Vec<usize>,
    pub perm_z: Vec<usize>,
}

/// Tables have their full size and every entry is a valid index or a
/// valid pool value.
pub open spec fn wf_perlin(p: Perlin) -> bool {
    &&& p.pool.len() == POOL_SIZE
    &&& p.perm_x.len() == POOL_SIZE
    &&& p.perm_y.len() == POOL_SIZE
    &&& p.perm_z.len() == POOL_SIZE
    &&& forall|i: int| 0 <= i < POOL_SIZE ==> 0 <= #[trigger] p.pool[i] < FX_ONE
    &&& forall|i: int| 0 <= i < POOL_SIZE ==> #[trigger] p.perm_x[i] < POOL_SIZE
    &&& forall|i: int| 0 <= i < POOL_SIZE ==> #[trigger] p.perm_y[i] < POOL_SIZE
    &&& forall|i: int| 0 <= i < POOL_SIZE ==> #[trigger] p.perm_z[i] < POOL_SIZE
}

/// The identity table: entry `i` holds `i`.
pub open spec fn identity_table() -> Seq<usize> {
    Seq::new(POOL_SIZE as nat, |i: int| i as usize)
}

/// The pool index the noise lookup reads for a point: the point is
/// scaled by four, truncated to whole units, masked to the table
/// size, and the three per-axis table entries are combined by xor.
pub open spec fn noise_index(p: Perlin, point: Vec3) -> int {
    let ix = (tdiv(4 * point.x, FX_ONE as int) as i64 & 255) as int;
    let iy = (tdiv(4 * point.y, FX_ONE as int) as i64 & 255) as int;
    let iz = (tdiv(4 * point.z, FX_ONE as int) as i64 & 255) as int;
    (p.perm_x[ix] ^ p.perm_y[iy] ^ p.perm_z[iz]) as int
}

impl Perlin {
    /// A fresh generator with a random pool and three shuffled
    /// permutation tables.
    pub fn new(rng: &mut RandomSource) -> (r: Perlin)
        ensures
            wf_perlin(r),
            r.perm_x@.to_multiset() == identity_table().to_multiset(),
            r.perm_y@.to_multiset() == identity_table().to_multiset(),
            r.perm_z@.to_multiset() == identity_table().to_multiset(),
    {
        let mut pool: Vec<i64> = Vec::new();
        let mut i: usize = 0;
        while i < POOL_SIZE
            invariant
                i <= POOL_SIZE,
                pool.len() == i,
                forall|j: int| 0 <= j < i ==> 0 <= #[trigger] pool[j] < FX_ONE,
            decreases POOL_SIZE - i,
        {
            let v = rng.next_in(0, FX_ONE);
            pool.push(v);
            i = i + 1;
        }
        let perm_x = Self::perlin_generate_perm(rng);
        let perm_y = Self::perlin_generate_perm(rng);
        let perm_z = Self::perlin_generate_perm(rng);
        Perlin { pool, perm_x, perm_y, perm_z }
    }

    /// The pool value selected by the hashed lookup; always a
    /// fixed-point value in `[0, 1)`.
    pub fn noise(&self, point: &Vec3) -> (r: i64)
        requires
            wf_perlin(*self),
            vec_bounded(*point),
        ensures
            r == self.pool[noise_index(*self, *point)],
            0 <= r < FX_ONE,
    {
        let xi = div_trunc_i128(4 * (point.x as i128), FX_ONE as i128) as i64;
        let yi = div_trunc_i128(4 * (point.y as i128), FX_ONE as i128) as i64;
        let zi = div_trunc_i128(4 * (point.z as i128), FX_ONE as i128) as i64;
        proof {
            crate::fixed::lemma_tdiv_bound(4 * point.x as int, FX_ONE as int);
            crate::fixed::lemma_tdiv_bound(4 * point.y as int, FX_ONE as int);
            crate::fixed::lemma_tdiv_bound(4 * point.z as int, FX_ONE as int);
        }
        let mx = xi & 255;
        let my = yi & 255;
        let mz = zi & 255;
        proof {
            assert(0 <= xi & 255 < 256 && 0 <= yi & 255 < 256 && 0 <= zi & 255 < 256)
                by (bit_vector);
        }
        let a = self.perm_x[mx as usize];
        let b = self.perm_y[my as usize];
        let c = self.perm_z[mz as usize];
        let index = a ^ b ^ c;
        proof {
            assert(a ^ b ^ c < 256) by (bit_vector)
                requires
                    a < 256usize && b < 256usize && c < 256usize,
            ;
        }
        self.pool[index]
    }

    /// A shuffled table of the indices `0 .. POOL_SIZE`: a true
    /// permutation, holding each index exactly once.
    fn perlin_generate_perm(rng: &mut RandomSource) -> (r: Vec<usize>)
        ensures
            r.len() == POOL_SIZE,
            forall|i: int| 0 <= i < POOL_SIZE ==> #[trigger] r[i] < POOL_SIZE,
            r@.to_multiset() == identity_table().to_multiset(),
    {
        let mut perm: Vec<usize> = Vec::new();
        let mut i: usize = 0;
        while i < POOL_SIZE
            invariant
                i <= POOL_SIZE,
                perm.len() == i,
                perm@ == Seq::new(i as nat, |j: int| j as usize),
                forall|j: int| 0 <= j < i ==> #[trigger] perm[j] < POOL_SIZE,
            decreases POOL_SIZE - i,
        {
            perm.push(i);
            proof {
                assert(perm@ =~= Seq::new((i + 1) as nat, |j: int| j as usize));
            }
            i = i + 1;
        }
        proof {
            assert(perm@ =~= identity_table());
        }
        Self::permute(rng, &mut perm);
        perm
    }

    /// Fisher-Yates-style shuffle by random transpositions: the
    /// table keeps exactly the same entries, reordered.
    fn permute(rng: &mut RandomSource, perm: &mut Vec<usize>)
        requires
            old(perm).len() == POOL_SIZE,
            forall|j: int| 0 <= j < POOL_SIZE ==> #[trigger] old(perm)[j] < POOL_SIZE,
        ensures
            final(perm).len() == POOL_SIZE,
            forall|j: int| 0 <= j < POOL_SIZE ==> #[trigger] final(perm)[j] < POOL_SIZE,
            final(perm)@.to_multiset() == old(perm)@.to_multiset(),
    {
        let mut i: usize = 0;
        while i < POOL_SIZE
            invariant
                perm.len() == POOL_SIZE,
                forall|j: int| 0 <= j < POOL_SIZE ==> #[trigger] perm[j] < POOL_SIZE,
                perm@.to_multiset() == old(perm)@.to_multiset(),
            decreases POOL_SIZE - i,
        {
            let target = rng.next_index(0, POOL_SIZE);
            let a = perm[i];
            let b = perm[target];
            let ghost pre = perm@;
            perm[i] = b;
            perm[target] = a;
            proof {
                lemma_swap_multiset(pre, i as int, target as int);
                assert(perm@ == pre.update(i as int, pre[target as int]).update(
                    target as int,
                    pre[i as int],
                ));
            }
            i = i + 1;
        }
    }
}

/// Swapping two entries of a sequence keeps its multiset.
proof fn lemma_swap_multiset(s: Seq<usize>, i: int, j: int)
    requires
        0 <= i < s.len(),
        0 <= j < s.len(),
    ensures
        s.update(i, s[j]).update(j, s[i]).to_multiset() == s.to_multiset(),
{
    let a = s[i];
    let b = s[j];
    let s1 = s.update(i, b);
    let s2 = s1.update(j, a);
    s.to_multiset_ensures();
    assert(s.contains(a)) by {
        assert(s[i] == a);
    }
    assert(s.to_multiset().count(a) > 0);
    assert(s1.to_multiset() == s.to_multiset().insert(b).remove(a));
    assert(s1[j] == b);
    assert(s2.to_multiset() == s1.to_multiset().insert(a).remove(b));
    assert(s2.to_multiset() =~= s.to_multiset());
}

} // verus!
