//! Elements of the prime field of order `P`, held as `u64` residues.
//!
//! Every `u64` stands for its residue class modulo `P`; the operations
//! return the canonical representative below `P`. The arithmetic itself is
//! done by `lambdaworks_math`'s `U64PrimeField`.

use lambdaworks_math::field::element::FieldElement;
use lambdaworks_math::field::fields::u64_prime_field::U64PrimeField;
use vstd::arithmetic::div_mod::{lemma_add_mod_noop, lemma_mod_twice, lemma_mul_mod_noop_general};
use vstd::arithmetic::power::pow;
use vstd::prelude::*;

verus! {

/// Calls `FieldElement::from(u64)` of `lambdaworks_math`, which reduces its
/// argument modulo the field's order, and reads the representative back.
#[verifier::external_body]
pub(crate) fn fe_from<const P: u64>(x: u64) -> (r: u64)
    requires
        P > 0,
    ensures
        r == x % P,
{
    FieldElement::<U64PrimeField<P>>::from(x).representative()
}

/// Calls `FieldElement::zero` of `lambdaworks_math`: the additive identity,
/// whose representative is 0.
#[verifier::external_body]
pub(crate) fn fe_zero<const P: u64>() -> (r: u64)
    ensures
        r == 0,
{
    FieldElement::<U64PrimeField<P>>::zero().representative()
}

/// Calls `FieldElement::one` of `lambdaworks_math`: the multiplicative
/// identity, whose representative is 1.
#[verifier::external_body]
pub(crate) fn fe_one<const P: u64>() -> (r: u64)
    ensures
        r == 1,
{
    FieldElement::<U64PrimeField<P>>::one().representative()
}

/// Calls the `+` of `lambdaworks_math`'s field elements on the residues of
/// `a` and `b`: the sum modulo `P`.
#[verifier::external_body]
pub(crate) fn fe_add<const P: u64>(a: u64, b: u64) -> (r: u64)
    requires
        P > 0,
    ensures
        r == (a + b) % (P as int),
{
    let x = FieldElement::<U64PrimeField<P>>::from(a);
    let y = FieldElement::<U64PrimeField<P>>::from(b);
    (x + y).representative()
}

/// Calls the `*` of `lambdaworks_math`'s field elements on the residues of
/// `a` and `b`: the product modulo `P`.
#[verifier::external_body]
pub(crate) fn fe_mul<const P: u64>(a: u64, b: u64) -> (r: u64)
    requires
        P > 0,
    ensures
        r == (a * b) % (P as int),
{
    let x = FieldElement::<U64PrimeField<P>>::from(a);
    let y = FieldElement::<U64PrimeField<P>>::from(b);
    (x * y).representative()
}

/// Calls `FieldElement::pow` of `lambdaworks_math` on the residue of `a`:
/// the `n`-th power modulo `P`, with the empty product 1 for `n == 0`.
#[verifier::external_body]
pub(crate) fn fe_pow<const P: u64>(a: u64, n: usize) -> (r: u64)
    requires
        P > 1,
    ensures
        r == pow(a as int, n as nat) % (P as int),
{
    FieldElement::<U64PrimeField<P>>::from(a).pow(n).representative()
}

/// Adding residues first changes nothing: `((a % p) + (b % p)) % p` is
/// `(a + b) % p`.
pub proof fn lemma_add_mod(a: int, b: int, p: int)
    requires
        p > 0,
    ensures
        ((a % p) + (b % p)) % p == (a + b) % p,
        ((a % p) + b) % p == (a + b) % p,
        (a + (b % p)) % p == (a + b) % p,
{
    lemma_add_mod_noop(a, b, p);
    lemma_add_mod_noop(a % p, b, p);
    lemma_add_mod_noop(a, b % p, p);
    lemma_mod_twice(a, p);
    lemma_mod_twice(b, p);
}

/// Multiplying residues first changes nothing: `((a % p) * (b % p)) % p` is
/// `(a * b) % p`.
pub proof fn lemma_mul_mod(a: int, b: int, p: int)
    requires
        p > 0,
    ensures
        ((a % p) * (b % p)) % p == (a * b) % p,
        ((a % p) * b) % p == (a * b) % p,
        (a * (b % p)) % p == (a * b) % p,
{
    lemma_mul_mod_noop_general(a, b, p);
}

} // verus!
