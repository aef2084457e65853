//! Sparse multivariate polynomials over the prime field of order `P`.
//!
//! A polynomial is a sum of monomials; a monomial is a coefficient times a
//! product of factors `x_index ^ power`. The model of a polynomial is the
//! integer polynomial with the same coefficients: `terms_value` evaluates
//! it over the integers, and the field value is its residue modulo `P`.

use crate::errors::Error;
use crate::field::{fe_add, fe_mul, fe_one, fe_pow, fe_zero, lemma_add_mod, lemma_mul_mod};
use crate::round::{monomial_var_max_power, var_max_power};
use vstd::arithmetic::div_mod::lemma_small_mod;
use vstd::arithmetic::power::pow;
use vstd::prelude::*;
use vstd::seq_lib::to_multiset_remove;

verus! {

/// The factor `x_index ^ power` of a monomial.
#[derive(Debug, Clone, Copy, PartialEq, Eq)]
pub struct Term {
    pub index: usize,
    pub power: usize,
}

/// A polynomial in `num_vars` variables: the sum of `coefficient * monomial`
/// over `terms`, in the order in which they were given.
#[derive(Debug, Clone)]
pub struct Poly<const P: u64> {
    pub terms: Vec<(u64, Vec<Term>)>,
    pub num_vars: usize,
}

/// The mathematical content of a `Poly`.
pub struct PolyView {
    pub num_vars: nat,
    pub terms: Seq<(u64, Seq<Term>)>,
}

impl<const P: u64> View for Poly<P> {
    type V = PolyView;

    open spec fn view(&self) -> PolyView {
        PolyView {
            num_vars: self.num_vars as nat,
            terms: Seq::new(self.terms@.len(), |i: int| (self.terms@[i].0, self.terms@[i].1@)),
        }
    }
}

/// The product of the factors of `m` at the assignment `a`, over the
/// integers. A factor of power 0 counts as 1, whatever its variable holds.
pub open spec fn monomial_value(m: Seq<Term>, a: Seq<u64>) -> int
    decreases m.len(),
{
    if m.len() == 0 {
        1
    } else {
        monomial_value(m.drop_last(), a) * pow(
            a[m.last().index as int] as int,
            m.last().power as nat,
        )
    }
}

/// The sum of `coefficient * monomial` over `ts` at the assignment `a`,
/// over the integers.
pub open spec fn terms_value(ts: Seq<(u64, Seq<Term>)>, a: Seq<u64>) -> int
    decreases ts.len(),
{
    if ts.len() == 0 {
        0
    } else {
        terms_value(ts.drop_last(), a) + ts.last().0 * monomial_value(ts.last().1, a)
    }
}

/// Every factor of `m` names a variable below `n`.
pub open spec fn monomial_in_range(m: Seq<Term>, n: int) -> bool {
    forall|k: int| 0 <= k < m.len() ==> (#[trigger] m[k]).index < n
}

/// Every factor of every monomial of `ts` names a variable below `n`.
pub open spec fn terms_in_range(ts: Seq<(u64, Seq<Term>)>, n: int) -> bool {
    forall|t: int| 0 <= t < ts.len() ==> monomial_in_range((#[trigger] ts[t]).1, n)
}

/// The largest power among the factors of `m`, 0 if there is none.
pub open spec fn monomial_max_power(m: Seq<Term>) -> nat
    decreases m.len(),
{
    if m.len() == 0 {
        0
    } else if m.last().power > monomial_max_power(m.drop_last()) {
        m.last().power as nat
    } else {
        monomial_max_power(m.drop_last())
    }
}

/// The largest power of any single factor anywhere in `ts`, 0 if there is
/// none. Powers within one monomial are not added up.
pub open spec fn max_power(ts: Seq<(u64, Seq<Term>)>) -> nat
    decreases ts.len(),
{
    if ts.len() == 0 {
        0
    } else if monomial_max_power(ts.last().1) > max_power(ts.drop_last()) {
        monomial_max_power(ts.last().1)
    } else {
        max_power(ts.drop_last())
    }
}

/// Taking one term out takes its share off the value.
pub proof fn lemma_terms_value_remove(ts: Seq<(u64, Seq<Term>)>, i: int, a: Seq<u64>)
    requires
        0 <= i < ts.len(),
    ensures
        terms_value(ts, a) == terms_value(ts.remove(i), a) + ts[i].0 * monomial_value(ts[i].1, a),
    decreases ts.len(),
{
    if i == ts.len() - 1 {
        assert(ts.remove(i) =~= ts.drop_last());
    } else {
        lemma_terms_value_remove(ts.drop_last(), i, a);
        assert(ts.remove(i).drop_last() =~= ts.drop_last().remove(i));
        assert(ts.remove(i).last() == ts.last());
    }
}

/// The order of the terms has no weight: polynomials with the same terms,
/// in whatever order, have the same value everywhere.
pub proof fn lemma_terms_order_free(s: Seq<(u64, Seq<Term>)>, t: Seq<(u64, Seq<Term>)>, a: Seq<u64>)
    requires
        s.to_multiset() == t.to_multiset(),
    ensures
        terms_value(s, a) == terms_value(t, a),
    decreases s.len(),
{
    s.to_multiset_ensures();
    t.to_multiset_ensures();
    if s.len() > 0 {
        let last = s.last();
        assert(s[s.len() - 1] == last);
        assert(s.contains(last));
        assert(s.to_multiset().count(last) > 0);
        assert(t.to_multiset().count(last) > 0);
        assert(t.contains(last));
        let i = choose|i: int| 0 <= i < t.len() && t[i] == last;
        assert(s.remove(s.len() - 1) =~= s.drop_last());
        to_multiset_remove(s, s.len() - 1);
        to_multiset_remove(t, i);
        lemma_terms_order_free(s.drop_last(), t.remove(i), a);
        lemma_terms_value_remove(t, i, a);
    }
}

impl<const P: u64> Poly<P> {
    /// A polynomial in `num_vars` variables with the given terms. Nothing is
    /// checked: see `is_well_formed`.
    pub fn new(num_vars: usize, terms: Vec<(u64, Vec<Term>)>) -> (g: Self)
        ensures
            g.num_vars == num_vars,
            g.terms == terms,
    {
        Poly { terms, num_vars }
    }

    /// The number of variables.
    pub fn num_vars(&self) -> (n: usize)
        ensures
            n == self@.num_vars,
    {
        self.num_vars
    }

    /// Every factor names one of the polynomial's variables.
    pub open spec fn well_formed(&self) -> bool {
        terms_in_range(self@.terms, self@.num_vars as int)
    }

    /// Tells whether every factor names one of the polynomial's variables.
    pub fn is_well_formed(&self) -> (b: bool)
        ensures
            b == self.well_formed(),
    {
        let n = self.num_vars;
        let mut t: usize = 0;
        while t < self.terms.len()
            invariant
                n == self.num_vars,
                t <= self.terms.len(),
                forall|u: int| 0 <= u < t ==> monomial_in_range((#[trigger] self@.terms[u]).1, n as int),
            decreases self.terms.len() - t,
        {
            let m = &self.terms[t].1;
            let mut k: usize = 0;
            while k < m.len()
                invariant
                    n == self.num_vars,
                    0 <= t < self.terms.len(),
                    m@ == self@.terms[t as int].1,
                    k <= m.len(),
                    forall|l: int| 0 <= l < k ==> (#[trigger] m@[l]).index < n,
                decreases m.len() - k,
            {
                if m[k].index >= n {
                    assert(m@[k as int].index >= n);
                    assert(!monomial_in_range(self@.terms[t as int].1, n as int));
                    return false;
                }
                k += 1;
            }
            t += 1;
        }
        true
    }

    /// The largest power of any single factor, 0 for a polynomial without
    /// factors.
    pub fn max_power(&self) -> (d: usize)
        ensures
            d == max_power(self@.terms),
    {
        let mut best: usize = 0;
        let mut t: usize = 0;
        while t < self.terms.len()
            invariant
                t <= self.terms.len(),
                best == max_power(self@.terms.take(t as int)),
            decreases self.terms.len() - t,
        {
            let m = &self.terms[t].1;
            let mut inner: usize = 0;
            let mut k: usize = 0;
            while k < m.len()
                invariant
                    k <= m.len(),
                    inner == monomial_max_power(m@.take(k as int)),
                decreases m.len() - k,
            {
                assert(m@.take(k + 1).drop_last() =~= m@.take(k as int));
                if m[k].power > inner {
                    inner = m[k].power;
                }
                k += 1;
            }
            assert(m@.take(m.len() as int) =~= m@);
            assert(self@.terms.take(t + 1).drop_last() =~= self@.terms.take(t as int));
            if inner > best {
                best = inner;
            }
            t += 1;
        }
        assert(self@.terms.take(self.terms.len() as int) =~= self@.terms);
        best
    }

    /// The largest power that any single factor in the variable `x_j` has,
    /// 0 where there is none.
    pub fn max_power_of(&self, j: usize) -> (d: usize)
        ensures
            d == var_max_power(self@.terms, j as int),
    {
        let mut best: usize = 0;
        let mut t: usize = 0;
        while t < self.terms.len()
            invariant
                t <= self.terms.len(),
                best == var_max_power(self@.terms.take(t as int), j as int),
            decreases self.terms.len() - t,
        {
            let m = &self.terms[t].1;
            let mut inner: usize = 0;
            let mut k: usize = 0;
            while k < m.len()
                invariant
                    k <= m.len(),
                    inner == monomial_var_max_power(m@.take(k as int), j as int),
                decreases m.len() - k,
            {
                assert(m@.take(k + 1).drop_last() =~= m@.take(k as int));
                if m[k].index == j && m[k].power > inner {
                    inner = m[k].power;
                }
                k += 1;
            }
            assert(m@.take(m.len() as int) =~= m@);
            assert(self@.terms.take(t + 1).drop_last() =~= self@.terms.take(t as int));
            if inner > best {
                best = inner;
            }
            t += 1;
        }
        assert(self@.terms.take(self.terms.len() as int) =~= self@.terms);
        best
    }

    /// The degree of the polynomial: the largest power of any single factor.
    pub fn max_degree(self) -> (d: usize)
        ensures
            d == max_power(self@.terms),
    {
        self.max_power()
    }

    /// The value at `r` of a well-formed polynomial, as a residue modulo `P`.
    pub fn value_at(&self, r: &Vec<u64>) -> (y: u64)
        requires
            P > 1,
            self.well_formed(),
            r@.len() == self@.num_vars,
        ensures
            y == terms_value(self@.terms, r@) % (P as int),
    {
        let mut result = fe_zero::<P>();
        let mut t: usize = 0;
        proof {
            lemma_small_mod(0, P as nat);
        }
        while t < self.terms.len()
            invariant
                P > 1,
                self.well_formed(),
                r@.len() == self@.num_vars,
                t <= self.terms.len(),
                result == terms_value(self@.terms.take(t as int), r@) % (P as int),
            decreases self.terms.len() - t,
        {
            let c = self.terms[t].0;
            let m = &self.terms[t].1;
            assert(monomial_in_range(self@.terms[t as int].1, self@.num_vars as int));
            let mut multiplicand = fe_one::<P>();
            let mut k: usize = 0;
            proof {
                lemma_small_mod(1, P as nat);
            }
            while k < m.len()
                invariant
                    P > 1,
                    monomial_in_range(m@, r@.len() as int),
                    k <= m.len(),
                    multiplicand == monomial_value(m@.take(k as int), r@) % (P as int),
                decreases m.len() - k,
            {
                let f = m[k];
                assert(m@[k as int].index < r@.len());
                let w = fe_pow::<P>(r[f.index], f.power);
                let ghost before = monomial_value(m@.take(k as int), r@);
                multiplicand = fe_mul::<P>(multiplicand, w);
                proof {
                    assert(m@.take(k + 1).drop_last() =~= m@.take(k as int));
                    lemma_mul_mod(before, pow(r@[f.index as int] as int, f.power as nat), P as int);
                }
                k += 1;
            }
            assert(m@.take(m.len() as int) =~= m@);
            let ghost before = terms_value(self@.terms.take(t as int), r@);
            let ghost mv = monomial_value(m@, r@);
            let scaled = fe_mul::<P>(c, multiplicand);
            result = fe_add::<P>(result, scaled);
            proof {
                assert(self@.terms.take(t + 1).drop_last() =~= self@.terms.take(t as int));
                lemma_mul_mod(c as int, mv, P as int);
                lemma_add_mod(before, c * mv, P as int);
            }
            t += 1;
        }
        assert(self@.terms.take(self.terms.len() as int) =~= self@.terms);
        result
    }

    /// Evaluates the polynomial at `r`: the sum over the terms of the
    /// coefficient times the product of `r[index] ^ power` over the factors,
    /// in the field. Refuses an assignment of the wrong length, and a
    /// polynomial with a factor in a variable that it does not have.
    pub fn evaluate(self, r: &Vec<u64>) -> (res: Result<u64, Error>)
        requires
            P > 1,
        ensures
            match res {
                Ok(y) => r@.len() == self@.num_vars && self.well_formed() && y == terms_value(
                    self@.terms,
                    r@,
                ) % (P as int),
                Err(Error::AssignmentLength) => r@.len() != self@.num_vars,
                Err(Error::TermIndexOutOfRange) => r@.len() == self@.num_vars
                    && !self.well_formed(),
                Err(_) => false,
            },
    {
        if r.len() != self.num_vars {
            return Err(Error::AssignmentLength);
        }
        if !self.is_well_formed() {
            return Err(Error::TermIndexOutOfRange);
        }
        Ok(self.value_at(r))
    }
}

} // verus!
