//! Univariate polynomials over the prime field of order `P`.
//!
//! A polynomial is held as its coefficients, lowest degree first, each a
//! `u64` residue. The arithmetic is done by `lambdaworks_math`'s dense
//! `Polynomial`; the contracts below state its results coefficient by
//! coefficient.

use crate::field::lemma_add_mod;
use lambdaworks_math::field::element::FieldElement;
use lambdaworks_math::field::fields::u64_prime_field::U64PrimeField;
use lambdaworks_math::polynomial::Polynomial;
use vstd::arithmetic::div_mod::lemma_mul_mod_noop_left;
use vstd::arithmetic::mul::lemma_mul_is_distributive_add_other_way;
use vstd::arithmetic::power::pow;
use vstd::prelude::*;

verus! {

/// The largest power that a factor in a round's own variable may have: a
/// polynomial of this degree, and the room that building it takes, fit in
/// one allocation on every target.
pub const MAX_POWER: usize = 134_217_727;

/// A univariate polynomial `c_0 + c_1 X + ... + c_n X^n`, held as
/// `[c_0, c_1, ..., c_n]`.
#[derive(Debug, Clone, PartialEq, Eq)]
pub struct UniPoly<const P: u64> {
    pub coefficients: Vec<u64>,
}

impl<const P: u64> View for UniPoly<P> {
    type V = Seq<u64>;

    open spec fn view(&self) -> Seq<u64> {
        self.coefficients@
    }
}

/// The coefficient of `X^d` in `s`: 0 beyond the coefficients that `s` holds.
pub open spec fn coeff_at(s: Seq<u64>, d: int) -> int {
    if 0 <= d < s.len() {
        s[d] as int
    } else {
        0
    }
}

/// The leading coefficient, if there is one, is not zero.
pub open spec fn is_trimmed(s: Seq<u64>) -> bool {
    s.len() > 0 ==> s.last() != 0
}

/// Every coefficient is a canonical residue modulo `p`.
pub open spec fn is_reduced(s: Seq<u64>, p: int) -> bool {
    forall|i: int| 0 <= i < s.len() ==> (#[trigger] s[i]) < p
}

/// The value of the polynomial with coefficients `s` at `x`, over the
/// integers.
pub open spec fn uni_value(s: Seq<u64>, x: int) -> int
    decreases s.len(),
{
    if s.len() == 0 {
        0
    } else {
        uni_value(s.drop_last(), x) + s.last() * pow(x, (s.len() - 1) as nat)
    }
}

/// The coefficients of `c * X^degree`: none at all where `c` is zero.
pub open spec fn monomial_coeffs(c: u64, degree: nat) -> Seq<u64> {
    if c == 0 {
        Seq::empty()
    } else {
        Seq::new(
            degree + 1,
            |i: int|
                if i == degree {
                    c
                } else {
                    0u64
                },
        )
    }
}

/// The degree of the polynomial with coefficients `s`; the empty
/// polynomial has degree 0.
pub open spec fn degree_of(s: Seq<u64>) -> nat {
    if s.len() == 0 {
        0
    } else {
        (s.len() - 1) as nat
    }
}

/// Calls `Polynomial::zero` of `lambdaworks_math`: the polynomial without
/// coefficients.
#[verifier::external_body]
pub(crate) fn uni_zero<const P: u64>() -> (r: Vec<u64>)
    ensures
        r@ == Seq::<u64>::empty(),
{
    let z = Polynomial::<FieldElement<U64PrimeField<P>>>::zero();
    z.coefficients.iter().map(|c| c.representative()).collect()
}

/// Calls `Polynomial::new_monomial` of `lambdaworks_math` on the residue of
/// `c`: `degree` zeros followed by that residue, or no coefficient at all
/// where the residue is zero.
#[verifier::external_body]
pub(crate) fn uni_monomial<const P: u64>(c: u64, degree: usize) -> (r: Vec<u64>)
    requires
        P > 0,
        degree <= MAX_POWER,
    ensures
        r@ == monomial_coeffs((c % P) as u64, degree as nat),
{
    let m = Polynomial::new_monomial(FieldElement::<U64PrimeField<P>>::from(c), degree);
    m.coefficients.iter().map(|c| c.representative()).collect()
}

/// Calls the `+` of `lambdaworks_math`'s polynomials: coefficients are added
/// in the field, the shorter operand counting as zero beyond its end, and
/// zeros at the top of the result are dropped.
#[verifier::external_body]
pub(crate) fn uni_add<const P: u64>(a: &Vec<u64>, b: &Vec<u64>) -> (r: Vec<u64>)
    requires
        P > 0,
    ensures
        is_trimmed(r@),
        is_reduced(r@, P as int),
        r@.len() <= a@.len() || r@.len() <= b@.len(),
        forall|d: int| #[trigger] coeff_at(r@, d) == (coeff_at(a@, d) + coeff_at(b@, d)) % (P as int),
{
    let pa = Polynomial {
        coefficients: a.iter().map(|c| FieldElement::<U64PrimeField<P>>::from(*c)).collect(),
    };
    let pb = Polynomial {
        coefficients: b.iter().map(|c| FieldElement::<U64PrimeField<P>>::from(*c)).collect(),
    };
    (pa + pb).coefficients.iter().map(|c| c.representative()).collect()
}

/// Calls the `*` of `lambdaworks_math` between a polynomial and a field
/// element: every coefficient is multiplied by the residue of `c`, and
/// none is dropped.
#[verifier::external_body]
pub(crate) fn uni_scale<const P: u64>(a: &Vec<u64>, c: u64) -> (r: Vec<u64>)
    requires
        P > 0,
    ensures
        r@.len() == a@.len(),
        forall|i: int| 0 <= i < a@.len() ==> (#[trigger] r@[i]) == (c * a@[i]) % (P as int),
{
    let pa = Polynomial {
        coefficients: a.iter().map(|c| FieldElement::<U64PrimeField<P>>::from(*c)).collect(),
    };
    let scaled = pa * FieldElement::<U64PrimeField<P>>::from(c);
    scaled.coefficients.iter().map(|c| c.representative()).collect()
}

/// Calls `Polynomial::evaluate` of `lambdaworks_math` at the residue of
/// `x`: the value of the polynomial in the field.
#[verifier::external_body]
pub(crate) fn uni_evaluate<const P: u64>(a: &Vec<u64>, x: u64) -> (y: u64)
    requires
        P > 0,
    ensures
        y == uni_value(a@, x as int) % (P as int),
{
    let pa = Polynomial {
        coefficients: a.iter().map(|c| FieldElement::<U64PrimeField<P>>::from(*c)).collect(),
    };
    pa.evaluate(&FieldElement::<U64PrimeField<P>>::from(x)).representative()
}

impl<const P: u64> UniPoly<P> {
    /// The value of the polynomial at `x`, as a residue modulo `P`.
    pub fn evaluate(&self, x: &u64) -> (y: u64)
        requires
            P > 0,
        ensures
            y == uni_value(self@, *x as int) % (P as int),
    {
        uni_evaluate::<P>(&self.coefficients, *x)
    }

    /// The degree: the index of the last coefficient, 0 for the polynomial
    /// without coefficients.
    pub fn degree(&self) -> (d: usize)
        ensures
            d == degree_of(self@),
    {
        if self.coefficients.len() == 0 {
            0
        } else {
            self.coefficients.len() - 1
        }
    }
}

/// The sum of `f(d) * x^d` over `0 <= d < n`: the value at `x` of the
/// polynomial whose coefficient of `X^d` is `f(d)`.
pub open spec fn poly_sum(f: spec_fn(int) -> int, n: nat, x: int) -> int
    decreases n,
{
    if n == 0 {
        0
    } else {
        poly_sum(f, (n - 1) as nat, x) + f(n - 1) * pow(x, (n - 1) as nat)
    }
}

/// Polynomials with the same coefficients below `n` have the same value.
pub proof fn lemma_poly_sum_pointwise(f: spec_fn(int) -> int, g: spec_fn(int) -> int, n: nat, x: int)
    requires
        forall|d: int| 0 <= d < n ==> (#[trigger] f(d)) == g(d),
    ensures
        poly_sum(f, n, x) == poly_sum(g, n, x),
    decreases n,
{
    if n > 0 {
        lemma_poly_sum_pointwise(f, g, (n - 1) as nat, x);
    }
}

/// The value of a sum of two polynomials is the sum of their values.
pub proof fn lemma_poly_sum_add(
    f: spec_fn(int) -> int,
    g: spec_fn(int) -> int,
    h: spec_fn(int) -> int,
    n: nat,
    x: int,
)
    requires
        forall|d: int| 0 <= d < n ==> (#[trigger] h(d)) == f(d) + g(d),
    ensures
        poly_sum(h, n, x) == poly_sum(f, n, x) + poly_sum(g, n, x),
    decreases n,
{
    if n > 0 {
        lemma_poly_sum_add(f, g, h, (n - 1) as nat, x);
        lemma_mul_is_distributive_add_other_way(pow(x, (n - 1) as nat), f(n - 1), g(n - 1));
    }
}

/// A polynomial without coefficients below `n` has the value 0.
pub proof fn lemma_poly_sum_zero(f: spec_fn(int) -> int, n: nat, x: int)
    requires
        forall|d: int| 0 <= d < n ==> (#[trigger] f(d)) == 0,
    ensures
        poly_sum(f, n, x) == 0,
    decreases n,
{
    if n > 0 {
        lemma_poly_sum_zero(f, (n - 1) as nat, x);
    }
}

/// A polynomial whose only coefficient below `n` is `w`, at `X^e`, has the
/// value `w * x^e`.
pub proof fn lemma_poly_sum_single(f: spec_fn(int) -> int, n: nat, x: int, e: int, w: int)
    requires
        0 <= e < n,
        f(e) == w,
        forall|d: int| 0 <= d < n && d != e ==> (#[trigger] f(d)) == 0,
    ensures
        poly_sum(f, n, x) == w * pow(x, e as nat),
    decreases n,
{
    if e == n - 1 {
        lemma_poly_sum_zero(f, (n - 1) as nat, x);
    } else {
        lemma_poly_sum_single(f, (n - 1) as nat, x, e, w);
    }
}

/// Coefficients that are zero from `n` on add nothing to the value.
pub proof fn lemma_poly_sum_extend(f: spec_fn(int) -> int, n: nat, m: nat, x: int)
    requires
        n <= m,
        forall|d: int| n <= d < m ==> (#[trigger] f(d)) == 0,
    ensures
        poly_sum(f, m, x) == poly_sum(f, n, x),
    decreases m,
{
    if n < m {
        lemma_poly_sum_extend(f, n, (m - 1) as nat, x);
    }
}

/// Polynomials whose coefficients below `n` agree modulo `p` have values
/// that agree modulo `p`.
pub proof fn lemma_poly_sum_congruent(
    f: spec_fn(int) -> int,
    g: spec_fn(int) -> int,
    n: nat,
    x: int,
    p: int,
)
    requires
        p > 0,
        forall|d: int| 0 <= d < n ==> (#[trigger] f(d)) % p == g(d) % p,
    ensures
        poly_sum(f, n, x) % p == poly_sum(g, n, x) % p,
    decreases n,
{
    if n > 0 {
        lemma_poly_sum_congruent(f, g, (n - 1) as nat, x, p);
        let w = pow(x, (n - 1) as nat);
        lemma_mul_mod_noop_left(f(n - 1), w, p);
        lemma_mul_mod_noop_left(g(n - 1), w, p);
        lemma_add_mod(poly_sum(f, (n - 1) as nat, x), f(n - 1) * w, p);
        lemma_add_mod(poly_sum(g, (n - 1) as nat, x), g(n - 1) * w, p);
    }
}

/// The value of a coefficient vector is the value of the polynomial with
/// those coefficients.
pub proof fn lemma_uni_value_is_poly_sum(s: Seq<u64>, x: int)
    ensures
        uni_value(s, x) == poly_sum(|d: int| coeff_at(s, d), s.len(), x),
    decreases s.len(),
{
    if s.len() > 0 {
        let t = s.drop_last();
        lemma_uni_value_is_poly_sum(t, x);
        lemma_poly_sum_pointwise(|d: int| coeff_at(t, d), |d: int| coeff_at(s, d), t.len(), x);
    }
}

/// A polynomial without a zero at the top is known by its coefficients:
/// two such vectors with the same coefficient of every power are the same.
pub proof fn lemma_trimmed_unique(u: Seq<u64>, w: Seq<u64>)
    requires
        is_trimmed(u),
        is_trimmed(w),
        forall|d: int| #[trigger] coeff_at(u, d) == coeff_at(w, d),
    ensures
        u == w,
{
    if u.len() > w.len() {
        assert(coeff_at(u, u.len() - 1) == coeff_at(w, u.len() - 1));
    }
    if w.len() > u.len() {
        assert(coeff_at(u, w.len() - 1) == coeff_at(w, w.len() - 1));
    }
    assert forall|i: int| 0 <= i < u.len() implies u[i] == w[i] by {
        assert(coeff_at(u, i) == coeff_at(w, i));
    }
    assert(u =~= w);
}

} // verus!
