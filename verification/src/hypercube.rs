//! The Boolean hypercube: its points in counting order, and sums of a
//! polynomial over it.

use crate::polynomial::{terms_value, PolyView, Term};
use vstd::arithmetic::power2::{
    lemma2_to64, lemma_pow2_strictly_increases, lemma_pow2_unfold, pow2,
};
use vstd::prelude::*;

verus! {

/// The largest number of free variables over which a round is summed: the
/// number of hypercube points to visit then still fits in a machine word of
/// 32 bits.
pub const MAX_FREE_VARS: usize = 32;

/// The `n` lowest binary digits of `i`, most significant first, each as the
/// field's 0 or 1: the `i`-th point of the hypercube of dimension `n`.
pub open spec fn hypercube_point(i: nat, n: nat) -> Seq<u64>
    decreases n,
{
    if n == 0 {
        Seq::empty()
    } else {
        hypercube_point(i / 2, (n - 1) as nat).push((i % 2) as u64)
    }
}

/// A point of the hypercube of dimension `n` has `n` coordinates, each 0 or 1.
pub proof fn lemma_hypercube_point_shape(i: nat, n: nat)
    ensures
        hypercube_point(i, n).len() == n,
        forall|k: int| 0 <= k < n ==> (#[trigger] hypercube_point(i, n)[k]) <= 1,
    decreases n,
{
    if n > 0 {
        lemma_hypercube_point_shape(i / 2, (n - 1) as nat);
    }
}

/// Dropping the first coordinate of a point gives the point of the same
/// number in one dimension less.
pub proof fn lemma_hypercube_point_tail(i: nat, n: nat)
    requires
        n >= 1,
    ensures
        hypercube_point(i, n).drop_first() =~= hypercube_point(i, (n - 1) as nat),
    decreases n,
{
    lemma_hypercube_point_shape(i / 2, (n - 1) as nat);
    if n >= 2 {
        lemma_hypercube_point_tail(i / 2, (n - 1) as nat);
        lemma_hypercube_point_shape(i / 2, (n - 2) as nat);
    }
}

/// The points of dimension `m + 1` are those of dimension `m` behind a 0,
/// followed by those of dimension `m` behind a 1.
pub proof fn lemma_hypercube_point_head(i: nat, b: nat, m: nat)
    requires
        i < pow2(m),
        b <= 1,
    ensures
        hypercube_point(i + b * pow2(m), m + 1) =~= seq![b as u64] + hypercube_point(i, m),
    decreases m,
{
    lemma_hypercube_point_shape(i, m);
    let j = i + b * pow2(m);
    if m == 0 {
        lemma2_to64();
        assert(j == b) by (nonlinear_arith)
            requires
                j == i + b * pow2(m),
                pow2(m) == 1,
                i == 0,
        ;
        assert(hypercube_point(j / 2, 0) =~= Seq::<u64>::empty());
        assert(hypercube_point(j, 1) =~= seq![b as u64]);
    } else {
        let k = (m - 1) as nat;
        let h = pow2(k);
        lemma_pow2_unfold(m);
        assert(j == i + 2 * (b * h)) by (nonlinear_arith)
            requires
                j == i + b * pow2(m),
                pow2(m) == 2 * h,
        ;
        assert(j / 2 == i / 2 + b * h);
        assert(j % 2 == i % 2);
        lemma_hypercube_point_head(i / 2, b, k);
        lemma_hypercube_point_shape(i / 2, k);
        assert(hypercube_point(j / 2, m) =~= seq![b as u64] + hypercube_point(i / 2, k));
        assert(hypercube_point(j, m + 1) =~= hypercube_point(j / 2, m).push((j % 2) as u64));
        assert(hypercube_point(i, m) =~= hypercube_point(i / 2, k).push((i % 2) as u64));
    }
}

/// The sum of the polynomial with terms `ts` over the first `count` points
/// of the hypercube of dimension `m`, each written behind the values `q`.
pub open spec fn points_sum(ts: Seq<(u64, Seq<Term>)>, q: Seq<u64>, m: nat, count: nat) -> int
    decreases count,
{
    if count == 0 {
        0
    } else {
        points_sum(ts, q, m, (count - 1) as nat) + terms_value(
            ts,
            q + hypercube_point((count - 1) as nat, m),
        )
    }
}

/// The sum of the polynomial with terms `ts` over every way to follow the
/// values `q` by `m` further values that are each 0 or 1.
pub open spec fn cube_sum(ts: Seq<(u64, Seq<Term>)>, q: Seq<u64>, m: nat) -> int
    decreases m,
{
    if m == 0 {
        terms_value(ts, q)
    } else {
        cube_sum(ts, q.push(0), (m - 1) as nat) + cube_sum(ts, q.push(1), (m - 1) as nat)
    }
}

/// The sum of the polynomial over all Boolean assignments to its variables.
/// A polynomial without variables has the one empty assignment.
pub open spec fn hypercube_sum(g: PolyView) -> int {
    cube_sum(g.terms, Seq::empty(), g.num_vars)
}

proof fn lemma_points_sum_low_half(ts: Seq<(u64, Seq<Term>)>, q: Seq<u64>, m: nat, count: nat)
    requires
        count <= pow2(m),
    ensures
        points_sum(ts, q, m + 1, count) == points_sum(ts, q.push(0), m, count),
    decreases count,
{
    if count > 0 {
        let i = (count - 1) as nat;
        lemma_points_sum_low_half(ts, q, m, i);
        lemma_hypercube_point_head(i, 0, m);
        assert(q + hypercube_point(i, m + 1) =~= q.push(0) + hypercube_point(i, m));
    }
}

proof fn lemma_points_sum_high_half(ts: Seq<(u64, Seq<Term>)>, q: Seq<u64>, m: nat, count: nat)
    requires
        count <= pow2(m),
    ensures
        points_sum(ts, q, m + 1, pow2(m) + count) == points_sum(ts, q, m + 1, pow2(m)) + points_sum(
            ts,
            q.push(1),
            m,
            count,
        ),
    decreases count,
{
    if count > 0 {
        let i = (count - 1) as nat;
        lemma_points_sum_high_half(ts, q, m, i);
        lemma_hypercube_point_head(i, 1, m);
        assert(q + hypercube_point(i + 1 * pow2(m), m + 1) =~= q.push(1) + hypercube_point(i, m));
        assert((pow2(m) + count - 1) as nat == i + 1 * pow2(m));
    }
}

/// Summing over the points in counting order is summing over all Boolean
/// values of the variables, first variable first.
pub proof fn lemma_points_sum_is_cube_sum(ts: Seq<(u64, Seq<Term>)>, q: Seq<u64>, m: nat)
    ensures
        points_sum(ts, q, m, pow2(m)) == cube_sum(ts, q, m),
    decreases m,
{
    if m == 0 {
        lemma2_to64();
        assert(points_sum(ts, q, 0, 0) == 0);
        assert(q + hypercube_point(0, 0) =~= q);
    } else {
        let k = (m - 1) as nat;
        lemma_pow2_unfold(m);
        lemma_points_sum_high_half(ts, q, k, pow2(k));
        lemma_points_sum_low_half(ts, q, k, pow2(k));
        lemma_points_sum_is_cube_sum(ts, q.push(0), k);
        lemma_points_sum_is_cube_sum(ts, q.push(1), k);
    }
}

/// Two to the power `e`, for an exponent below the width of every machine
/// word.
pub(crate) fn pow2_usize(e: usize) -> (r: usize)
    requires
        e < MAX_FREE_VARS,
    ensures
        r == pow2(e as nat),
{
    let mut r: usize = 1;
    let mut k: usize = 0;
    proof {
        lemma2_to64();
    }
    while k < e
        invariant
            k <= e,
            e < 32,
            r == pow2(k as nat),
        decreases e - k,
    {
        proof {
            lemma2_to64();
            lemma_pow2_unfold((k + 1) as nat);
            if k + 1 < 31 {
                lemma_pow2_strictly_increases((k + 1) as nat, 31);
            }
        }
        r = r * 2;
        k += 1;
    }
    r
}

} // verus!
