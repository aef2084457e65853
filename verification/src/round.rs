//! The polynomial that the prover sends in one round, as a mathematical
//! object.
//!
//! With the variables before `x_j` fixed and `x_j` left standing, every
//! monomial becomes a multiple of one power of `x_j`. The round polynomial
//! collects these multiples, summed over the Boolean values of the
//! variables behind `x_j`. Its coefficients are defined here over the
//! integers; the prover computes their residues.

use crate::errors::Error;
use crate::hypercube::{
    cube_sum, hypercube_point, lemma_hypercube_point_shape, lemma_hypercube_point_tail,
    lemma_points_sum_is_cube_sum, points_sum, MAX_FREE_VARS,
};
use crate::polynomial::{
    monomial_in_range, monomial_value, terms_in_range, terms_value, PolyView, Term,
};
use crate::univariate::{
    coeff_at, is_reduced, is_trimmed, lemma_poly_sum_add, lemma_poly_sum_congruent,
    lemma_poly_sum_extend, lemma_poly_sum_pointwise, lemma_poly_sum_single,
    lemma_trimmed_unique, lemma_uni_value_is_poly_sum, poly_sum, uni_value, MAX_POWER,
};
use vstd::arithmetic::div_mod::{lemma_mod_twice, lemma_small_mod};
use vstd::arithmetic::power::{lemma_pow0, pow};
use vstd::arithmetic::power2::pow2;
use vstd::prelude::*;

verus! {

/// The power of `x_j` that the monomial `m` is taken to hold: that of its
/// last factor in `x_j`, and 0 if it has none.
pub open spec fn recorded_power(m: Seq<Term>, j: int) -> nat
    decreases m.len(),
{
    if m.len() == 0 {
        0
    } else if m.last().index == j {
        m.last().power as nat
    } else {
        recorded_power(m.drop_last(), j)
    }
}

/// The product of the factors of `m` in variables other than `x_j`, at the
/// assignment `a`, over the integers.
pub open spec fn residual_value(m: Seq<Term>, a: Seq<u64>, j: int) -> int
    decreases m.len(),
{
    if m.len() == 0 {
        1
    } else if m.last().index == j {
        residual_value(m.drop_last(), a, j)
    } else {
        residual_value(m.drop_last(), a, j) * pow(
            a[m.last().index as int] as int,
            m.last().power as nat,
        )
    }
}

/// What the monomial `m` with coefficient `c` adds to the coefficient of
/// `x_j ^ d`, with the other variables set as in `a`.
pub open spec fn monomial_share(c: u64, m: Seq<Term>, a: Seq<u64>, j: int, d: int) -> int {
    if recorded_power(m, j) == d {
        c * residual_value(m, a, j)
    } else {
        0
    }
}

/// The coefficient of `x_j ^ d` in the polynomial with terms `ts`, with the
/// other variables set as in `a`, over the integers.
pub open spec fn partial_coeff(ts: Seq<(u64, Seq<Term>)>, a: Seq<u64>, j: int, d: int) -> int
    decreases ts.len(),
{
    if ts.len() == 0 {
        0
    } else {
        partial_coeff(ts.drop_last(), a, j, d) + monomial_share(ts.last().0, ts.last().1, a, j, d)
    }
}

/// The coefficient of `X^d` summed over the first `count` points of the
/// hypercube of dimension `free`: the variables before `x_j` hold `prefix`,
/// with `j` the length of `prefix`, and those from `x_j` on hold the point,
/// whose first coordinate, in the place of `x_j`, is not read.
pub open spec fn round_coeff(
    ts: Seq<(u64, Seq<Term>)>,
    prefix: Seq<u64>,
    free: nat,
    count: nat,
    d: int,
) -> int
    decreases count,
{
    if count == 0 {
        0
    } else {
        round_coeff(ts, prefix, free, (count - 1) as nat, d) + partial_coeff(
            ts,
            prefix + hypercube_point((count - 1) as nat, free),
            prefix.len() as int,
            d,
        )
    }
}

/// The number of variables of `g` that are free once `fixed` of them hold a
/// value.
pub open spec fn free_vars(g: PolyView, fixed: nat) -> nat {
    (g.num_vars - fixed) as nat
}

/// The coefficient of `X^d` of the round polynomial of `g` after the
/// challenges `prefix`, over the integers: the sum over the
/// `2^(free - 1)` Boolean values of the variables behind the next one.
pub open spec fn round_poly_coeff(g: PolyView, prefix: Seq<u64>, d: int) -> int {
    let free = free_vars(g, prefix.len());
    round_coeff(g.terms, prefix, free, pow2((free - 1) as nat), d)
}

/// `u` holds the round polynomial of `g` after the challenges `prefix` in
/// the field of order `p`: its coefficients are the residues of the
/// integer coefficients, with no zero at the top. Only one sequence does.
pub open spec fn is_round_poly(u: Seq<u64>, g: PolyView, prefix: Seq<u64>, p: int) -> bool {
    &&& is_trimmed(u)
    &&& is_reduced(u, p)
    &&& forall|d: int| #[trigger] coeff_at(u, d) == round_poly_coeff(g, prefix, d) % p
}

/// At most one vector holds the round polynomial of `g` after `prefix`.
pub proof fn lemma_round_poly_unique(u: Seq<u64>, w: Seq<u64>, g: PolyView, prefix: Seq<u64>, p: int)
    requires
        is_round_poly(u, g, prefix, p),
        is_round_poly(w, g, prefix, p),
    ensures
        u == w,
{
    assert forall|d: int| #[trigger] coeff_at(u, d) == coeff_at(w, d) by {
        assert(coeff_at(u, d) == round_poly_coeff(g, prefix, d) % p);
        assert(coeff_at(w, d) == round_poly_coeff(g, prefix, d) % p);
    }
    lemma_trimmed_unique(u, w);
}

/// The largest power that a factor of `m` in `x_j` has, 0 if there is none.
pub open spec fn monomial_var_max_power(m: Seq<Term>, j: int) -> nat
    decreases m.len(),
{
    if m.len() == 0 {
        0
    } else if m.last().index == j && m.last().power > monomial_var_max_power(m.drop_last(), j) {
        m.last().power as nat
    } else {
        monomial_var_max_power(m.drop_last(), j)
    }
}

/// The largest power that any single factor in `x_j` has across the
/// monomials of `ts`, 0 if there is none.
pub open spec fn var_max_power(ts: Seq<(u64, Seq<Term>)>, j: int) -> nat
    decreases ts.len(),
{
    if ts.len() == 0 {
        0
    } else if monomial_var_max_power(ts.last().1, j) > var_max_power(ts.drop_last(), j) {
        monomial_var_max_power(ts.last().1, j)
    } else {
        var_max_power(ts.drop_last(), j)
    }
}

/// Why no round polynomial is derived from `g` with `fixed` variables
/// holding a value, if it is not.
pub open spec fn derive_refusal(g: PolyView, fixed: nat) -> Option<Error> {
    if fixed >= g.num_vars {
        Some(Error::NoFreeVariable)
    } else if !terms_in_range(g.terms, g.num_vars as int) {
        Some(Error::TermIndexOutOfRange)
    } else if var_max_power(g.terms, fixed as int) > MAX_POWER {
        Some(Error::PowerTooLarge)
    } else if g.num_vars - fixed > MAX_FREE_VARS {
        Some(Error::TooManyVariables)
    } else {
        None
    }
}

/// The recorded power of `x_j` is the power of one of the monomial's
/// factors in `x_j`, or 0.
pub proof fn lemma_recorded_power_bounds(m: Seq<Term>, j: int)
    ensures
        recorded_power(m, j) <= monomial_var_max_power(m, j),
    decreases m.len(),
{
    if m.len() > 0 {
        lemma_recorded_power_bounds(m.drop_last(), j);
    }
}

/// No power of any monomial's factors in `x_j` is above `var_max_power`.
pub proof fn lemma_var_max_power_bounds(ts: Seq<(u64, Seq<Term>)>, j: int, t: int)
    requires
        0 <= t < ts.len(),
    ensures
        monomial_var_max_power(ts[t].1, j) <= var_max_power(ts, j),
    decreases ts.len(),
{
    if t < ts.len() - 1 {
        lemma_var_max_power_bounds(ts.drop_last(), j, t);
    }
}

/// Above the largest power of `x_j`, and below 0, every coefficient is 0.
pub proof fn lemma_partial_coeff_vanishes(ts: Seq<(u64, Seq<Term>)>, a: Seq<u64>, j: int, d: int)
    requires
        d < 0 || d > var_max_power(ts, j),
    ensures
        partial_coeff(ts, a, j, d) == 0,
    decreases ts.len(),
{
    if ts.len() > 0 {
        lemma_partial_coeff_vanishes(ts.drop_last(), a, j, d);
        lemma_recorded_power_bounds(ts.last().1, j);
    }
}

/// Above the largest power of the round's variable, and below 0, every
/// coefficient of the round polynomial is 0.
pub proof fn lemma_round_coeff_vanishes(
    ts: Seq<(u64, Seq<Term>)>,
    prefix: Seq<u64>,
    free: nat,
    count: nat,
    d: int,
)
    requires
        d < 0 || d > var_max_power(ts, prefix.len() as int),
    ensures
        round_coeff(ts, prefix, free, count, d) == 0,
    decreases count,
{
    if count > 0 {
        lemma_round_coeff_vanishes(ts, prefix, free, (count - 1) as nat, d);
        lemma_partial_coeff_vanishes(
            ts,
            prefix + hypercube_point((count - 1) as nat, free),
            prefix.len() as int,
            d,
        );
    }
}

/// A polynomial without a zero at the top whose coefficients vanish above
/// `bound` has at most `bound + 1` coefficients.
pub proof fn lemma_trimmed_length(u: Seq<u64>, bound: nat)
    requires
        is_trimmed(u),
        forall|d: int| d > bound ==> #[trigger] coeff_at(u, d) == 0,
    ensures
        u.len() <= bound + 1,
{
    if u.len() > bound + 1 {
        assert(coeff_at(u, u.len() - 1) == 0);
    }
}

/// The value at `x` of the round polynomial of `g` after the challenges
/// `prefix`, in the field of order `p`.
pub open spec fn round_eval(g: PolyView, prefix: Seq<u64>, x: u64, p: int) -> int {
    poly_sum(
        |d: int| round_poly_coeff(g, prefix, d),
        var_max_power(g.terms, prefix.len() as int) + 1,
        x as int,
    ) % p
}

/// Evaluating a vector that holds the round polynomial gives `round_eval`.
pub proof fn lemma_round_poly_value(u: Seq<u64>, g: PolyView, prefix: Seq<u64>, x: u64, p: int)
    requires
        p > 0,
        is_round_poly(u, g, prefix, p),
    ensures
        uni_value(u, x as int) % p == round_eval(g, prefix, x, p),
{
    let bound = var_max_power(g.terms, prefix.len() as int);
    let free = free_vars(g, prefix.len());
    let held = |d: int| coeff_at(u, d);
    let exact = |d: int| round_poly_coeff(g, prefix, d);
    assert forall|d: int| d > bound implies #[trigger] coeff_at(u, d) == 0 by {
        lemma_round_coeff_vanishes(g.terms, prefix, free, pow2((free - 1) as nat), d);
        assert(coeff_at(u, d) == round_poly_coeff(g, prefix, d) % p);
        lemma_small_mod(0, p as nat);
    }
    lemma_trimmed_length(u, bound);
    lemma_uni_value_is_poly_sum(u, x as int);
    lemma_poly_sum_extend(held, u.len(), bound + 1, x as int);
    assert forall|d: int| 0 <= d < bound + 1 implies (#[trigger] held(d)) % p == exact(d) % p by {
        assert(coeff_at(u, d) == round_poly_coeff(g, prefix, d) % p);
        lemma_mod_twice(round_poly_coeff(g, prefix, d), p);
    }
    lemma_poly_sum_congruent(held, exact, bound + 1, x as int, p);
}

/// The last factor of `m` in each variable carries the variable's whole
/// power: a factor in a variable that a later factor names again has
/// power 0. This holds wherever no two factors are in the same variable.
pub open spec fn powers_settled(m: Seq<Term>) -> bool {
    forall|i: int, k: int|
        0 <= i < k < m.len() && (#[trigger] m[i]).index == (#[trigger] m[k]).index ==> m[i].power
            == 0
}

/// In every monomial of `ts` the last factor in each variable carries the
/// variable's whole power. Only of such a polynomial is the prover's round
/// polynomial, which reads the power of a variable from its last factor,
/// the polynomial itself in that variable.
pub open spec fn in_normal_form(ts: Seq<(u64, Seq<Term>)>) -> bool {
    forall|t: int| 0 <= t < ts.len() ==> powers_settled((#[trigger] ts[t]).1)
}

proof fn lemma_monomial_without_var(m: Seq<Term>, a: Seq<u64>, j: int)
    requires
        forall|k: int| 0 <= k < m.len() && (#[trigger] m[k]).index == j ==> m[k].power == 0,
    ensures
        residual_value(m, a, j) == monomial_value(m, a),
    decreases m.len(),
{
    if m.len() > 0 {
        assert(m.last() == m[m.len() - 1]);
        assert forall|k: int|
            0 <= k < m.drop_last().len() && (#[trigger] m.drop_last()[k]).index == j implies
            m.drop_last()[k].power == 0 by {
            assert(m.drop_last()[k] == m[k]);
        }
        lemma_monomial_without_var(m.drop_last(), a, j);
        if m.last().index == j {
            lemma_pow0(a[j] as int);
        }
    }
}

/// A monomial whose powers are settled is its part without `x_j` times
/// the recorded power of `x_j`.
pub proof fn lemma_monomial_split(m: Seq<Term>, a: Seq<u64>, j: int)
    requires
        powers_settled(m),
    ensures
        residual_value(m, a, j) * pow(a[j] as int, recorded_power(m, j)) == monomial_value(m, a),
    decreases m.len(),
{
    if m.len() == 0 {
        lemma_pow0(a[j] as int);
    } else {
        let rest = m.drop_last();
        let last = m.last();
        assert(last == m[m.len() - 1]);
        if last.index == j {
            assert forall|k: int|
                0 <= k < rest.len() && (#[trigger] rest[k]).index == j implies rest[k].power
                == 0 by {
                assert(rest[k] == m[k]);
            }
            lemma_monomial_without_var(rest, a, j);
        } else {
            assert(powers_settled(rest)) by {
                assert forall|i: int, k: int|
                    0 <= i < k < rest.len() && (#[trigger] rest[i]).index == (
                    #[trigger] rest[k]).index implies rest[i].power == 0 by {
                    assert(rest[i] == m[i]);
                    assert(rest[k] == m[k]);
                }
            }
            lemma_monomial_split(rest, a, j);
            let r = residual_value(rest, a, j);
            let w = pow(a[last.index as int] as int, last.power as nat);
            let v = pow(a[j] as int, recorded_power(rest, j));
            assert((r * w) * v == (r * v) * w) by (nonlinear_arith);
        }
    }
}

/// The part of a monomial without `x_j` does not change with the value of
/// `x_j`.
pub proof fn lemma_residual_ignores_var(m: Seq<Term>, a: Seq<u64>, j: int, x: u64)
    requires
        0 <= j < a.len(),
        monomial_in_range(m, a.len() as int),
    ensures
        residual_value(m, a.update(j, x), j) == residual_value(m, a, j),
    decreases m.len(),
{
    if m.len() > 0 {
        assert(m.last() == m[m.len() - 1]);
        assert forall|k: int| 0 <= k < m.drop_last().len() implies (#[trigger] m.drop_last()[k]).index
            < a.len() by {
            assert(m.drop_last()[k] == m[k]);
        }
        lemma_residual_ignores_var(m.drop_last(), a, j, x);
    }
}

/// With every other variable set as in `a`, the polynomial in `x_j` whose
/// coefficients are `partial_coeff` takes at `x` the value that the
/// polynomial with terms `ts` has at `a` with `x` for `x_j`.
pub proof fn lemma_partial_value(ts: Seq<(u64, Seq<Term>)>, a: Seq<u64>, j: int, n: nat, x: u64)
    requires
        in_normal_form(ts),
        0 <= j < a.len(),
        terms_in_range(ts, a.len() as int),
        n > var_max_power(ts, j),
    ensures
        poly_sum(|d: int| partial_coeff(ts, a, j, d), n, x as int) == terms_value(
            ts,
            a.update(j, x),
        ),
    decreases ts.len(),
{
    let whole = |d: int| partial_coeff(ts, a, j, d);
    if ts.len() == 0 {
        crate::univariate::lemma_poly_sum_zero(whole, n, x as int);
    } else {
        let rest = ts.drop_last();
        let c = ts.last().0;
        let m = ts.last().1;
        let at = a.update(j, x);
        assert(ts.last() == ts[ts.len() - 1]);
        assert forall|t: int| 0 <= t < rest.len() implies powers_settled((#[trigger] rest[t]).1)
            && monomial_in_range(rest[t].1, a.len() as int) by {
            assert(rest[t] == ts[t]);
        }
        lemma_var_max_power_bounds(ts, j, ts.len() - 1);
        lemma_recorded_power_bounds(m, j);
        lemma_partial_value(rest, a, j, n, x);
        let before = |d: int| partial_coeff(rest, a, j, d);
        let share = |d: int| monomial_share(c, m, a, j, d);
        lemma_poly_sum_add(before, share, whole, n, x as int);
        let rec = recorded_power(m, j);
        let res = residual_value(m, a, j);
        lemma_poly_sum_single(share, n, x as int, rec as int, c * res);
        lemma_residual_ignores_var(m, a, j, x);
        lemma_monomial_split(m, at, j);
        assert((c * res) * pow(x as int, rec) == c * (res * pow(x as int, rec))) by (nonlinear_arith);
    }
}

/// The polynomial whose coefficients are `round_coeff` takes at `x` the sum
/// of the polynomial with terms `ts` over the first `count` points, with
/// `x` for the round's variable.
pub proof fn lemma_round_value(
    ts: Seq<(u64, Seq<Term>)>,
    prefix: Seq<u64>,
    free: nat,
    count: nat,
    n: nat,
    x: u64,
)
    requires
        in_normal_form(ts),
        free >= 1,
        terms_in_range(ts, (prefix.len() + free) as int),
        n > var_max_power(ts, prefix.len() as int),
    ensures
        poly_sum(|d: int| round_coeff(ts, prefix, free, count, d), n, x as int) == points_sum(
            ts,
            prefix.push(x),
            (free - 1) as nat,
            count,
        ),
    decreases count,
{
    let whole = |d: int| round_coeff(ts, prefix, free, count, d);
    if count == 0 {
        crate::univariate::lemma_poly_sum_zero(whole, n, x as int);
    } else {
        let i = (count - 1) as nat;
        let j = prefix.len() as int;
        let a = prefix + hypercube_point(i, free);
        lemma_round_value(ts, prefix, free, i, n, x);
        lemma_hypercube_point_shape(i, free);
        lemma_hypercube_point_shape(i, (free - 1) as nat);
        lemma_hypercube_point_tail(i, free);
        lemma_partial_value(ts, a, j, n, x);
        let before = |d: int| round_coeff(ts, prefix, free, i, d);
        let here = |d: int| partial_coeff(ts, a, j, d);
        lemma_poly_sum_add(before, here, whole, n, x as int);
        let tail = hypercube_point(i, (free - 1) as nat);
        assert(a.update(j, x) =~= prefix.push(x) + tail) by {
            assert forall|k: int| 0 <= k < a.len() implies a.update(j, x)[k] == (prefix.push(x)
                + tail)[k] by {
                if k > j {
                    assert(hypercube_point(i, free).drop_first()[k - j - 1] == hypercube_point(
                        i,
                        free,
                    )[k - j]);
                }
            }
        }
    }
}

/// The round polynomial takes at `x` the sum of the polynomial over the
/// Boolean values of the variables behind the round's, with the
/// challenges before it and `x` in its place.
pub proof fn lemma_round_eval_is_cube_sum(g: PolyView, prefix: Seq<u64>, x: u64, p: int)
    requires
        in_normal_form(g.terms),
        terms_in_range(g.terms, g.num_vars as int),
        prefix.len() < g.num_vars,
    ensures
        round_eval(g, prefix, x, p) == cube_sum(
            g.terms,
            prefix.push(x),
            (g.num_vars - prefix.len() - 1) as nat,
        ) % p,
{
    let free = free_vars(g, prefix.len());
    let rest = (free - 1) as nat;
    let bound = var_max_power(g.terms, prefix.len() as int) + 1;
    lemma_round_value(g.terms, prefix, free, pow2(rest), bound as nat, x);
    lemma_points_sum_is_cube_sum(g.terms, prefix.push(x), rest);
    lemma_poly_sum_pointwise(
        |d: int| round_poly_coeff(g, prefix, d),
        |d: int| round_coeff(g.terms, prefix, free, pow2(rest), d),
        bound as nat,
        x as int,
    );
}

} // verus!
