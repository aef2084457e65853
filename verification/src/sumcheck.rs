//! The prover and the verifier of the sum-check protocol.

use crate::errors::Error;
use crate::field::{
    fe_add, fe_from, fe_mul, fe_one, fe_pow, fe_zero, lemma_add_mod, lemma_mul_mod,
};
use crate::hypercube::{
    hypercube_point, lemma_hypercube_point_shape, pow2_usize, MAX_FREE_VARS,
};
use crate::polynomial::{monomial_in_range, terms_in_range, Poly, PolyView, Term};
use crate::protocol::{
    final_passes, honest_outcome, lemma_outcome_is_honest, lemma_rounds_outcome_skips,
    protocol_outcome, round_passes, verify_refusal,
};
use crate::round::{
    derive_refusal, free_vars, in_normal_form, is_round_poly, lemma_recorded_power_bounds,
    lemma_round_coeff_vanishes, lemma_round_poly_value, lemma_trimmed_length,
    lemma_var_max_power_bounds, monomial_share,
    partial_coeff, recorded_power, residual_value, round_coeff, var_max_power,
};
use crate::univariate::{
    coeff_at, degree_of, is_reduced, is_trimmed, monomial_coeffs, uni_add, uni_monomial,
    uni_scale, uni_value, uni_zero, UniPoly, MAX_POWER,
};
use rand::Rng;
use vstd::arithmetic::div_mod::{lemma_mod_twice, lemma_small_mod};
use vstd::arithmetic::power::pow;
use vstd::arithmetic::power2::{lemma_pow2_strictly_increases, pow2};
use vstd::prelude::*;

verus! {

/// The `i`-th point of the hypercube of dimension `n`: the binary digits of
/// `i`, most significant first and filled up with zeros to `n` places, each
/// as the field's 0 or 1.
pub fn n_to_vec<const P: u64>(i: usize, n: usize) -> (v: Vec<u64>)
    requires
        P > 1,
        i < pow2(n as nat),
    ensures
        v@ == hypercube_point(i as nat, n as nat),
{
    let mut v: Vec<u64> = Vec::new();
    let mut k: usize = 0;
    while k < n
        invariant
            P > 1,
            k <= n,
            v@.len() == k,
        decreases n - k,
    {
        v.push(fe_from::<P>(0));
        k += 1;
    }
    let mut x = i;
    proof {
        assert(v@.subrange(n as int, n as int) =~= Seq::<u64>::empty());
        assert(hypercube_point(i as nat, n as nat) =~= hypercube_point(x as nat, k as nat)
            + v@.subrange(k as int, n as int));
    }
    while k > 0
        invariant
            P > 1,
            k <= n,
            v@.len() == n,
            hypercube_point(i as nat, n as nat) =~= hypercube_point(x as nat, k as nat)
                + v@.subrange(k as int, n as int),
        decreases k,
    {
        let ghost before = v@;
        let bit = (x % 2) as u64;
        proof {
            lemma_small_mod(bit as nat, P as nat);
            lemma_hypercube_point_shape((x / 2) as nat, (k - 1) as nat);
        }
        k -= 1;
        v.set(k, fe_from::<P>(bit));
        x = x / 2;
        assert(hypercube_point(x as nat, k as nat).push(bit) + before.subrange(k + 1, n as int)
            =~= hypercube_point(x as nat, k as nat) + v@.subrange(k as int, n as int));
    }
    assert(v@.subrange(0, n as int) =~= v@);
    v
}

/// What one prover remembers: the polynomial, and the challenges received
/// so far, in the order of the rounds.
#[derive(Debug, Clone)]
pub struct Prover<const P: u64> {
    pub g: Poly<P>,
    pub r_vec: Vec<u64>,
}

/// The mathematical content of a `Prover`.
pub struct ProverView {
    pub g: PolyView,
    pub r_vec: Seq<u64>,
}

impl<const P: u64> View for Prover<P> {
    type V = ProverView;

    open spec fn view(&self) -> ProverView {
        ProverView { g: self.g@, r_vec: self.r_vec@ }
    }
}

/// The challenges held after a round that was asked for with `r`.
pub open spec fn challenges_after(r_vec: Seq<u64>, r: Option<u64>) -> Seq<u64> {
    match r {
        Some(x) => r_vec.push(x),
        None => r_vec,
    }
}

impl<const P: u64> Prover<P> {
    /// A prover for `g` that has received no challenge yet.
    pub fn new(g: Poly<P>) -> (p: Self)
        ensures
            p.g == g,
            p.r_vec@ == Seq::<u64>::empty(),
    {
        Prover { g: g, r_vec: Vec::new() }
    }

    /// The round polynomial of the prover's polynomial: fixes the next
    /// variable to `r`, if one is given, and sums the polynomial over the
    /// Boolean values of all free variables but the first, which stays as
    /// the variable of the result. Refuses, and leaves the prover as it
    /// was, where no variable would be free, where the polynomial has a
    /// factor in a variable that it does not have, where a factor in the
    /// round's own variable has too large a power, and where too many
    /// variables are free. Powers of the other variables have no limit.
    pub fn gen_uni_polynomial(&mut self, r: Option<u64>) -> (res: Result<UniPoly<P>, Error>)
        requires
            P > 1,
        ensures
            match derive_refusal(old(self).g@, challenges_after(old(self).r_vec@, r).len()) {
                Some(e) => res == Err::<UniPoly<P>, Error>(e) && *final(self) == *old(self),
                None => {
                    &&& res is Ok
                    &&& final(self).g == old(self).g
                    &&& final(self).r_vec@ == challenges_after(old(self).r_vec@, r)
                    &&& is_round_poly(res->Ok_0@, final(self).g@, final(self).r_vec@, P as int)
                    &&& degree_of(res->Ok_0@) <= var_max_power(
                        final(self).g@.terms,
                        final(self).r_vec@.len() as int,
                    )
                },
            },
    {
        if self.r_vec.len() >= self.g.num_vars {
            return Err(Error::NoFreeVariable);
        }
        let fixed: usize = match r {
            Some(_) => self.r_vec.len() + 1,
            None => self.r_vec.len(),
        };
        if fixed >= self.g.num_vars {
            return Err(Error::NoFreeVariable);
        }
        if !self.g.is_well_formed() {
            return Err(Error::TermIndexOutOfRange);
        }
        if self.g.max_power_of(fixed) > MAX_POWER {
            return Err(Error::PowerTooLarge);
        }
        let v: usize = self.g.num_vars - fixed;
        if v > MAX_FREE_VARS {
            return Err(Error::TooManyVariables);
        }
        match r {
            Some(x) => {
                self.r_vec.push(x);
            },
            None => {},
        }
        let count = pow2_usize(v - 1);
        let ghost ts = self.g@.terms;
        let ghost prefix = self.r_vec@;
        let mut sum = uni_zero::<P>();
        let mut i: usize = 0;
        proof {
            lemma_small_mod(0, P as nat);
        }
        while i < count
            invariant
                P > 1,
                self.g == old(self).g,
                self.g@.terms == ts,
                self.r_vec@ == prefix,
                prefix.len() + v == self.g@.num_vars,
                1 <= v <= MAX_FREE_VARS,
                terms_in_range(ts, self.g@.num_vars as int),
                var_max_power(ts, prefix.len() as int) <= MAX_POWER,
                count == pow2((v - 1) as nat),
                i <= count,
                is_trimmed(sum@),
                is_reduced(sum@, P as int),
                forall|d: int| #[trigger]
                    coeff_at(sum@, d) == round_coeff(ts, prefix, v as nat, i as nat, d) % (P as int),
            decreases count - i,
        {
            proof {
                lemma_pow2_strictly_increases((v - 1) as nat, v as nat);
                lemma_hypercube_point_shape(i as nat, v as nat);
                assert forall|t: int| 0 <= t < ts.len() implies recorded_power(
                    (#[trigger] ts[t]).1,
                    prefix.len() as int,
                ) <= MAX_POWER by {
                    lemma_var_max_power_bounds(ts, prefix.len() as int, t);
                    lemma_recorded_power_bounds(ts[t].1, prefix.len() as int);
                }
            }
            let point = n_to_vec::<P>(i, v);
            let gj = self.evaluate_gj(point);
            let ghost before = sum@;
            sum = uni_add::<P>(&sum, &gj.coefficients);
            proof {
                let a = prefix + hypercube_point(i as nat, v as nat);
                assert forall|d: int| #[trigger]
                    coeff_at(sum@, d) == round_coeff(ts, prefix, v as nat, (i + 1) as nat, d) % (
                    P as int) by {
                    assert(coeff_at(before, d) == round_coeff(ts, prefix, v as nat, i as nat, d) % (
                    P as int));
                    assert(coeff_at(gj@, d) == partial_coeff(ts, a, prefix.len() as int, d) % (
                    P as int));
                    lemma_add_mod(
                        round_coeff(ts, prefix, v as nat, i as nat, d),
                        partial_coeff(ts, a, prefix.len() as int, d),
                        P as int,
                    );
                }
            }
            i += 1;
        }
        proof {
            let bound = var_max_power(ts, prefix.len() as int);
            assert forall|d: int| d > bound implies #[trigger] coeff_at(sum@, d) == 0 by {
                lemma_round_coeff_vanishes(ts, prefix, v as nat, count as nat, d);
                lemma_small_mod(0, P as nat);
            }
            lemma_trimmed_length(sum@, bound);
            assert(free_vars(self.g@, prefix.len()) == v);
        }
        Ok(UniPoly { coefficients: sum })
    }

    /// The polynomial in the next free variable that the prover's polynomial
    /// becomes when the variables before it hold the challenges and those
    /// behind it hold `points[1..]`: `points` has one place for each free
    /// variable, of which the first is not read.
    pub fn evaluate_gj(&self, points: Vec<u64>) -> (u: UniPoly<P>)
        requires
            P > 1,
            terms_in_range(self.g@.terms, (self.r_vec@.len() + points@.len()) as int),
            forall|t: int|
                0 <= t < self.g@.terms.len() ==> recorded_power(
                    (#[trigger] self.g@.terms[t]).1,
                    self.r_vec@.len() as int,
                ) <= MAX_POWER,
        ensures
            is_trimmed(u@),
            is_reduced(u@, P as int),
            forall|d: int| #[trigger]
                coeff_at(u@, d) == partial_coeff(
                    self.g@.terms,
                    self.r_vec@ + points@,
                    self.r_vec@.len() as int,
                    d,
                ) % (P as int),
    {
        let ghost ts = self.g@.terms;
        let ghost a = self.r_vec@ + points@;
        let ghost j = self.r_vec@.len() as int;
        let mut sum = uni_zero::<P>();
        let mut t: usize = 0;
        proof {
            lemma_small_mod(0, P as nat);
        }
        while t < self.g.terms.len()
            invariant
                P > 1,
                ts == self.g@.terms,
                a == self.r_vec@ + points@,
                j == self.r_vec@.len(),
                terms_in_range(ts, (self.r_vec@.len() + points@.len()) as int),
                forall|u: int| 0 <= u < ts.len() ==> recorded_power((#[trigger] ts[u]).1, j) <= MAX_POWER,
                t <= self.g.terms.len(),
                is_trimmed(sum@),
                is_reduced(sum@, P as int),
                forall|d: int| #[trigger]
                    coeff_at(sum@, d) == partial_coeff(ts.take(t as int), a, j, d) % (P as int),
            decreases self.g.terms.len() - t,
        {
            let coeff = self.g.terms[t].0;
            let m = &self.g.terms[t].1;
            proof {
                assert(m@ == ts[t as int].1);
                assert(monomial_in_range(ts[t as int].1, (self.r_vec@.len() + points@.len()) as int));
                assert(recorded_power(ts[t as int].1, j) <= MAX_POWER);
            }
            let curr = self.evaluate_term(m, &points);
            let scaled = uni_scale::<P>(&curr.coefficients, coeff);
            let ghost before = sum@;
            sum = uni_add::<P>(&scaled, &sum);
            proof {
                let rec = recorded_power(m@, j);
                let res = residual_value(m@, a, j);
                assert(ts.take(t + 1).drop_last() =~= ts.take(t as int));
                assert(ts.take(t + 1).last() == ts[t as int]);
                lemma_mul_mod(coeff as int, res, P as int);
                lemma_small_mod(0, P as nat);
                assert forall|d: int| #[trigger]
                    coeff_at(sum@, d) == partial_coeff(ts.take(t + 1), a, j, d) % (P as int) by {
                    let share = monomial_share(coeff, m@, a, j, d);
                    assert(coeff_at(scaled@, d) == share % (P as int)) by {
                        if res % (P as int) != 0 && 0 <= d <= rec {
                            assert(scaled@[d] == (coeff * curr@[d]) % (P as int));
                            if d != rec {
                                assert(coeff * 0 == 0);
                            }
                        }
                    }
                    assert(coeff_at(before, d) == partial_coeff(ts.take(t as int), a, j, d) % (
                    P as int));
                    lemma_add_mod(partial_coeff(ts.take(t as int), a, j, d), share, P as int);
                }
            }
            t += 1;
        }
        assert(ts.take(self.g.terms.len() as int) =~= ts);
        UniPoly { coefficients: sum }
    }

    /// The monomial in the next free variable that `terms` becomes when the
    /// variables before it hold the challenges and those behind it hold
    /// `point[1..]`: the product of the other factors, times the power of
    /// the free variable that the last factor in it has.
    pub fn evaluate_term(&self, terms: &Vec<Term>, point: &Vec<u64>) -> (u: UniPoly<P>)
        requires
            P > 1,
            monomial_in_range(terms@, (self.r_vec@.len() + point@.len()) as int),
            recorded_power(terms@, self.r_vec@.len() as int) <= MAX_POWER,
        ensures
            u@ == monomial_coeffs(
                (residual_value(terms@, self.r_vec@ + point@, self.r_vec@.len() as int) % (
                P as int)) as u64,
                recorded_power(terms@, self.r_vec@.len() as int),
            ),
    {
        let j = self.r_vec.len();
        let ghost a = self.r_vec@ + point@;
        let mut uni_term_power: usize = 0;
        let mut product = fe_one::<P>();
        let mut k: usize = 0;
        proof {
            lemma_small_mod(1, P as nat);
        }
        while k < terms.len()
            invariant
                P > 1,
                j == self.r_vec@.len(),
                a == self.r_vec@ + point@,
                monomial_in_range(terms@, (j + point@.len()) as int),
                recorded_power(terms@, j as int) <= MAX_POWER,
                k <= terms.len(),
                product == residual_value(terms@.take(k as int), a, j as int) % (P as int),
                uni_term_power == recorded_power(terms@.take(k as int), j as int),
            decreases terms.len() - k,
        {
            let term = terms[k];
            let ghost before = residual_value(terms@.take(k as int), a, j as int);
            proof {
                assert(terms@.take(k + 1).drop_last() =~= terms@.take(k as int));
                assert(terms@[k as int].index < j + point@.len());
            }
            if term.index == j {
                uni_term_power = term.power;
            } else if term.index < j {
                let w = fe_pow::<P>(self.r_vec[term.index], term.power);
                product = fe_mul::<P>(w, product);
                proof {
                    lemma_mul_mod(pow(a[term.index as int] as int, term.power as nat), before, P as int);
                    assert(pow(a[term.index as int] as int, term.power as nat) * before == before
                        * pow(a[term.index as int] as int, term.power as nat)) by (nonlinear_arith);
                }
            } else {
                let w = fe_pow::<P>(point[term.index - j], term.power);
                product = fe_mul::<P>(w, product);
                proof {
                    lemma_mul_mod(pow(a[term.index as int] as int, term.power as nat), before, P as int);
                    assert(pow(a[term.index as int] as int, term.power as nat) * before == before
                        * pow(a[term.index as int] as int, term.power as nat)) by (nonlinear_arith);
                }
            }
            k += 1;
        }
        proof {
            assert(terms@.take(terms.len() as int) =~= terms@);
            lemma_mod_twice(residual_value(terms@, a, j as int), P as int);
        }
        UniPoly { coefficients: uni_monomial::<P>(product, uni_term_power) }
    }
}

/// Calls `thread_rng().gen::<u64>()` of `rand`: a number drawn from the
/// thread's generator, of which nothing is known beforehand.
#[verifier::external_body]
fn random_u64() -> u64 {
    rand::thread_rng().gen::<u64>()
}

/// A fresh challenge: a random element of the field.
pub fn get_r<const P: u64>() -> (r: Option<u64>)
    requires
        P > 0,
    ensures
        r matches Some(x) && x < P,
{
    Some(challenge_from::<P>(random_u64()))
}

/// The challenge that a drawn number stands for: its residue in the field.
pub fn challenge_from<const P: u64>(draw: u64) -> (x: u64)
    requires
        P > 0,
    ensures
        x == draw % P,
{
    fe_from::<P>(draw)
}

/// The value that the round polynomial `u` stands for: the sum of its
/// values at 0 and at 1.
fn claim_of<const P: u64>(u: &UniPoly<P>) -> (c: u64)
    requires
        P > 1,
    ensures
        c == (uni_value(u@, 0) % (P as int) + uni_value(u@, 1) % (P as int)) % (P as int),
{
    let zero = fe_zero::<P>();
    let one = fe_one::<P>();
    let at_zero = u.evaluate(&zero);
    let at_one = u.evaluate(&one);
    fe_add::<P>(at_zero, at_one)
}

/// Runs the protocol between the verifier and a prover for `g`, with the
/// challenges of `fixed` where they are given and with fresh random ones
/// where not, and hands back the challenges used beside the outcome.
fn run_protocol<const P: u64>(g: Poly<P>, c_1: u64, fixed: Option<&Vec<u64>>) -> (out: (
    Result<bool, Error>,
    Ghost<Seq<u64>>,
))
    requires
        P > 1,
        fixed matches Some(ch) ==> ch@.len() == g@.num_vars,
    ensures
        out.1@.len() == g@.num_vars,
        fixed matches Some(ch) ==> out.1@ == ch@,
        out.0 == protocol_outcome(g@, c_1, out.1@, P as int),
{
    let n = g.num_vars;
    let ghost gv = g@;
    let ghost mut used: Seq<u64> = match fixed {
        Some(ch) => ch@,
        None => Seq::new(n as nat, |i: int| 0u64),
    };
    let claimed = fe_from::<P>(c_1);
    if n == 0 {
        if !g.is_well_formed() {
            return (Err(Error::TermIndexOutOfRange), Ghost(used));
        }
        let nothing: Vec<u64> = Vec::new();
        let actual = g.value_at(&nothing);
        proof {
            assert(used =~= nothing@);
        }
        return (Ok(claimed == actual), Ghost(used));
    }
    // first round
    let mut p = Prover::new(g);
    let mut gi = match p.gen_uni_polynomial(None) {
        Ok(u) => u,
        Err(e) => {
            return (Err(e), Ghost(used));
        },
    };
    let mut expected_c = claim_of::<P>(&gi);
    proof {
        assert(used.take(0) =~= p.r_vec@);
        lemma_round_poly_value(gi@, gv, used.take(0), 0, P as int);
        lemma_round_poly_value(gi@, gv, used.take(0), 1, P as int);
    }
    if claimed != expected_c {
        assert(!round_passes(gv, c_1, used, 0, P as int));
        return (Ok(false), Ghost(used));
    }
    // middle rounds
    let mut k: usize = 1;
    while k < n
        invariant
            P > 1,
            1 <= k <= n,
            n == gv.num_vars,
            gv == g@,
            p.g@ == gv,
            used.len() == n,
            fixed matches Some(ch) ==> used == ch@,
            verify_refusal(gv, n as nat) is None,
            p.r_vec@ == used.take(k - 1),
            is_round_poly(gi@, gv, used.take(k - 1), P as int),
            forall|i: int| 0 <= i < k ==> #[trigger] round_passes(gv, c_1, used, i, P as int),
            forall|i: int| 0 <= i < k ==> #[trigger] var_max_power(gv.terms, i) <= MAX_POWER,
        decreases n - k,
    {
        let r = match fixed {
            Some(ch) => ch[k - 1],
            None => get_r::<P>().unwrap(),
        };
        let ghost before = used;
        proof {
            used = used.update(k - 1, r);
            assert(fixed matches Some(ch) ==> used =~= ch@);
            lemma_round_poly_value(gi@, gv, before.take(k - 1), r, P as int);
            assert(used.take(k - 1) =~= before.take(k - 1));
            assert forall|i: int| 0 <= i < k implies #[trigger] round_passes(
                gv,
                c_1,
                used,
                i,
                P as int,
            ) by {
                assert(round_passes(gv, c_1, before, i, P as int));
                assert(used.take(i) =~= before.take(i));
                if i > 0 {
                    assert(used.take(i - 1) =~= before.take(i - 1));
                }
            }
        }
        expected_c = gi.evaluate(&r);
        gi = match p.gen_uni_polynomial(Some(r)) {
            Ok(u) => u,
            Err(e) => {
                proof {
                    lemma_rounds_outcome_skips(gv, c_1, used, 0, (k - 1) as nat, P as int);
                }
                return (Err(e), Ghost(used));
            },
        };
        let new_c = claim_of::<P>(&gi);
        proof {
            assert(used.take(k as int) =~= before.take(k - 1).push(r));
            lemma_round_poly_value(gi@, gv, used.take(k as int), 0, P as int);
            lemma_round_poly_value(gi@, gv, used.take(k as int), 1, P as int);
            assert(round_passes(gv, c_1, used, k as int, P as int) <==> expected_c == new_c);
            lemma_rounds_outcome_skips(gv, c_1, used, 0, k as nat, P as int);
        }
        if expected_c != new_c {
            return (Ok(false), Ghost(used));
        }
        k += 1;
    }
    // final round
    let r = match fixed {
        Some(ch) => ch[n - 1],
        None => get_r::<P>().unwrap(),
    };
    let ghost before = used;
    proof {
        used = used.update(n - 1, r);
        assert(fixed matches Some(ch) ==> used =~= ch@);
        lemma_round_poly_value(gi@, gv, before.take(n - 1), r, P as int);
    }
    expected_c = gi.evaluate(&r);
    p.r_vec.push(r);
    let new_c = p.g.value_at(&p.r_vec);
    proof {
        assert(p.r_vec@ =~= used);
        assert(used.take(n - 1) =~= before.take(n - 1));
        assert(final_passes(gv, used, P as int) <==> expected_c == new_c);
        assert forall|i: int| 0 <= i < n implies #[trigger] round_passes(gv, c_1, used, i, P as int) by {
            assert(round_passes(gv, c_1, before, i, P as int));
            assert(used.take(i) =~= before.take(i));
            if i > 0 {
                assert(used.take(i - 1) =~= before.take(i - 1));
            }
        }
        lemma_rounds_outcome_skips(gv, c_1, used, 0, (n - 1) as nat, P as int);
    }
    (Ok(expected_c == new_c), Ghost(used))
}

/// Runs the protocol on the claim that `g` sums to `c_1` over the Boolean
/// hypercube, with the given challenges, one for each variable: `Ok(true)`
/// where the verifier accepts, `Ok(false)` where a check fails. Refuses
/// challenges of the wrong number, a malformed polynomial, and a round that
/// is reached and cannot be derived.
pub fn verify_with_challenges<const P: u64>(g: Poly<P>, c_1: u64, challenges: &Vec<u64>) -> (res:
    Result<bool, Error>)
    requires
        P > 1,
    ensures
        res == protocol_outcome(g@, c_1, challenges@, P as int),
{
    if challenges.len() != g.num_vars {
        return Err(Error::AssignmentLength);
    }
    run_protocol::<P>(g, c_1, Some(challenges)).0
}

/// Verifies the claim that `g` sums to `c_1` over the Boolean hypercube,
/// drawing a fresh random challenge in every round: `Ok(true)` where the
/// verifier accepts, `Ok(false)` where a check fails, and a refusal where
/// the polynomial is malformed or a round that is reached cannot be
/// derived. The outcome is that of the protocol under some sequence of
/// challenges; for a polynomial in normal form it is the same under all of
/// them: a false claim is rejected, and a true one is accepted.
pub fn verify<const P: u64>(g: Poly<P>, c_1: u64) -> (res: Result<bool, Error>)
    requires
        P > 1,
    ensures
        exists|rs: Seq<u64>|
            rs.len() == g@.num_vars && res == #[trigger] protocol_outcome(g@, c_1, rs, P as int),
        in_normal_form(g@.terms) ==> res == honest_outcome(g@, c_1, P as int),
{
    let ghost gv = g@;
    let out = run_protocol::<P>(g, c_1, None);
    proof {
        let rs = out.1@;
        assert(out.0 == protocol_outcome(gv, c_1, rs, P as int));
        if in_normal_form(gv.terms) {
            lemma_outcome_is_honest(gv, c_1, rs, P as int);
        }
    }
    out.0
}

} // verus!
