use lambdaworks_math::field::element::FieldElement;
use lambdaworks_math::field::fields::u64_prime_field::U64PrimeField;
use lambdaworks_math::polynomial::Polynomial;
use sumcheck::errors::Error;
use sumcheck::hypercube::MAX_FREE_VARS;
use sumcheck::polynomial::{Poly, Term};
use sumcheck::sumcheck::{
    challenge_from, get_r, n_to_vec, verify, verify_with_challenges, Prover,
};
use sumcheck::univariate::{UniPoly, MAX_POWER};

const ORDER: u64 = 23;

// x_0 + 2 * x_1 + 3 * x_0 * x_1
fn sample() -> Poly<ORDER> {
    let terms = vec![
        (1, vec![Term { index: 0, power: 1 }]),
        (2, vec![Term { index: 1, power: 1 }]),
        (3, vec![Term { index: 0, power: 1 }, Term { index: 1, power: 1 }]),
    ];
    Poly::new(2, terms)
}

// 2 * x_0^3 * x_1 + x_1^2 * x_2 + 5 * x_2 + 7
fn cubic() -> Poly<ORDER> {
    let terms = vec![
        (2, vec![Term { index: 0, power: 3 }, Term { index: 1, power: 1 }]),
        (1, vec![Term { index: 1, power: 2 }, Term { index: 2, power: 1 }]),
        (5, vec![Term { index: 2, power: 1 }]),
        (7, vec![]),
    ];
    Poly::new(3, terms)
}

// The sum of `g` over the Boolean hypercube, point by point.
fn true_sum<const P: u64>(g: &Poly<P>) -> u64 {
    let n = g.num_vars;
    let mut total: u128 = 0;
    for i in 0..(1u64 << n) {
        let point: Vec<u64> = (0..n).map(|k| (i >> (n - 1 - k)) & 1).collect();
        total += g.clone().evaluate(&point).unwrap() as u128;
    }
    (total % P as u128) as u64
}

#[test]
fn test_sumcheck_test_sumcheck() {
    let g = sample();
    assert_eq!(verify(g, 9), Ok(true));
}

#[test]
fn true_claim_is_accepted_every_time() {
    for _ in 0..50 {
        assert_eq!(verify(sample(), 9), Ok(true));
    }
}

#[test]
fn true_claim_is_accepted_under_every_challenge() {
    for a in 0..ORDER {
        for b in 0..ORDER {
            assert_eq!(verify_with_challenges(sample(), 9, &vec![a, b]), Ok(true));
        }
    }
}

#[test]
fn false_claim_is_rejected() {
    for _ in 0..50 {
        assert_eq!(verify(sample(), 10), Ok(false));
    }
}

#[test]
fn false_claim_is_rejected_under_every_challenge() {
    for a in 0..ORDER {
        for b in 0..ORDER {
            assert_eq!(verify_with_challenges(sample(), 10, &vec![a, b]), Ok(false));
        }
    }
}

#[test]
fn every_claim_but_the_true_one_is_rejected() {
    for c in 0..ORDER {
        assert_eq!(verify(sample(), c), Ok(c == 9));
    }
}

#[test]
fn claim_is_read_as_a_residue() {
    assert_eq!(verify(sample(), 9 + ORDER), Ok(true));
    assert_eq!(verify(sample(), 10 + ORDER), Ok(false));
}

#[test]
fn challenges_are_read_as_residues() {
    assert_eq!(verify_with_challenges(sample(), 9, &vec![ORDER + 4, u64::MAX]), Ok(true));
}

#[test]
fn cubic_true_sum_is_accepted() {
    let c = true_sum(&cubic());
    // 2 * 2 + 2 * 1 + 4 * 5 + 8 * 7 = 82 = 13 mod 23
    assert_eq!(c, 13);
    for _ in 0..20 {
        assert_eq!(verify(cubic(), c), Ok(true));
    }
    assert_eq!(verify_with_challenges(cubic(), c, &vec![3, 22, 17]), Ok(true));
    assert_eq!(verify(cubic(), c + 1), Ok(false));
}

#[test]
fn single_variable_has_no_middle_round() {
    // 4 * x_0^2 + 6: the sum is 6 + 10 = 16
    let terms = vec![(4, vec![Term { index: 0, power: 2 }]), (6, vec![])];
    let g: Poly<ORDER> = Poly::new(1, terms);
    assert_eq!(verify(g.clone(), 16), Ok(true));
    assert_eq!(verify(g.clone(), 15), Ok(false));
    for r in 0..ORDER {
        assert_eq!(verify_with_challenges(g.clone(), 16, &vec![r]), Ok(true));
    }
}

#[test]
fn constant_polynomial_sums_to_its_coefficient() {
    let g: Poly<ORDER> = Poly::new(0, vec![(5, vec![])]);
    assert_eq!(verify(g.clone(), 5), Ok(true));
    assert_eq!(verify(g.clone(), 6), Ok(false));
    assert_eq!(verify_with_challenges(g.clone(), 5, &vec![]), Ok(true));
    assert_eq!(verify_with_challenges(g, 28, &vec![]), Ok(true));
}

#[test]
fn empty_polynomial_sums_to_zero() {
    let g: Poly<ORDER> = Poly::new(2, vec![]);
    assert_eq!(verify(g.clone(), 0), Ok(true));
    assert_eq!(verify(g, 1), Ok(false));
    let h: Poly<ORDER> = Poly::new(0, vec![]);
    assert_eq!(verify(h, 0), Ok(true));
}

#[test]
fn repeated_variable_breaks_the_last_check() {
    // x_0 * x_0 written as two factors: the round polynomial keeps the last
    // factor's power only, so the true sum 1 passes the first check and
    // fails the last one at a challenge that is neither 0 nor 1.
    let twice = vec![Term { index: 0, power: 1 }, Term { index: 0, power: 1 }];
    let g: Poly<ORDER> = Poly::new(1, vec![(1, twice)]);
    assert_eq!(true_sum(&g), 1);
    assert_eq!(verify_with_challenges(g.clone(), 1, &vec![5]), Ok(false));
    assert_eq!(verify_with_challenges(g.clone(), 1, &vec![1]), Ok(true));
    let mut p = Prover::new(g);
    assert_eq!(p.gen_uni_polynomial(None).unwrap().coefficients, vec![0, 1]);
}

#[test]
fn factor_of_power_zero_before_the_last_is_harmless() {
    // x_0^0 * x_0^2 is x_0^2: the sum is 1
    let twice = vec![Term { index: 0, power: 0 }, Term { index: 0, power: 2 }];
    let g: Poly<ORDER> = Poly::new(1, vec![(1, twice)]);
    for r in 0..ORDER {
        assert_eq!(verify_with_challenges(g.clone(), 1, &vec![r]), Ok(true));
        assert_eq!(verify_with_challenges(g.clone(), 2, &vec![r]), Ok(false));
    }
}

#[test]
fn verify_refuses_index_out_of_range() {
    let g: Poly<ORDER> = Poly::new(1, vec![(1, vec![Term { index: 1, power: 1 }])]);
    assert_eq!(verify(g.clone(), 0), Err(Error::TermIndexOutOfRange));
    assert_eq!(verify_with_challenges(g, 0, &vec![3]), Err(Error::TermIndexOutOfRange));
    let h: Poly<ORDER> = Poly::new(0, vec![(1, vec![Term { index: 0, power: 1 }])]);
    assert_eq!(verify(h, 0), Err(Error::TermIndexOutOfRange));
}

#[test]
fn verify_refuses_wrong_number_of_challenges() {
    assert_eq!(verify_with_challenges(sample(), 9, &vec![1]), Err(Error::AssignmentLength));
    assert_eq!(
        verify_with_challenges(sample(), 9, &vec![1, 2, 3]),
        Err(Error::AssignmentLength)
    );
}

#[test]
fn verify_refuses_too_large_power() {
    let g: Poly<ORDER> = Poly::new(1, vec![(1, vec![Term { index: 0, power: MAX_POWER + 1 }])]);
    assert_eq!(verify(g.clone(), 1), Err(Error::PowerTooLarge));
    // evaluation alone has no such limit: 3 has order 11 modulo 23, and
    // 2^27 is 7 modulo 11, so 3^(2^27) is 3^7 = 2
    assert_eq!(g.evaluate(&vec![3]), Ok(2));
}

#[test]
fn verify_refuses_too_many_variables() {
    let g: Poly<ORDER> = Poly::new(MAX_FREE_VARS + 1, vec![(1, vec![Term { index: 0, power: 1 }])]);
    assert_eq!(verify(g, 1), Err(Error::TooManyVariables));
}

#[test]
fn first_round_polynomial() {
    // g(X, 0) + g(X, 1) = X + (X + 2 + 3 X) = 2 + 5 X
    let mut p = Prover::new(sample());
    let g1 = p.gen_uni_polynomial(None).unwrap();
    assert_eq!(g1.coefficients, vec![2, 5]);
    assert_eq!(g1.degree(), 1);
    assert_eq!(g1.evaluate(&0), 2);
    assert_eq!(g1.evaluate(&1), 7);
    assert_eq!(g1.evaluate(&10), 6);
    assert!(p.r_vec.is_empty());
}

#[test]
fn second_round_polynomial() {
    // g(4, X) = 4 + 14 X
    let mut p = Prover::new(sample());
    let g1 = p.gen_uni_polynomial(None).unwrap();
    let g2 = p.gen_uni_polynomial(Some(4)).unwrap();
    assert_eq!(p.r_vec, vec![4]);
    assert_eq!(g2.coefficients, vec![4, 14]);
    assert_eq!((g2.evaluate(&0) + g2.evaluate(&1)) % ORDER, g1.evaluate(&4));
}

#[test]
fn round_polynomial_drops_leading_zero() {
    // g(7, X) = 7 + 23 X = 7
    let mut p = Prover::new(sample());
    p.gen_uni_polynomial(None).unwrap();
    let g2 = p.gen_uni_polynomial(Some(7)).unwrap();
    assert_eq!(g2.coefficients, vec![7]);
    assert_eq!(g2.degree(), 0);
}

#[test]
fn round_polynomial_of_empty_polynomial_is_empty() {
    let g: Poly<ORDER> = Poly::new(2, vec![]);
    let mut p = Prover::new(g);
    let g1 = p.gen_uni_polynomial(None).unwrap();
    assert_eq!(g1.coefficients, Vec::<u64>::new());
    assert_eq!(g1.degree(), 0);
    assert_eq!(g1.evaluate(&9), 0);
}

#[test]
fn round_polynomial_matches_partial_sums() {
    // the round polynomial at x is the sum of g(r, x, b) over b in {0, 1}
    let g = cubic();
    let mut p = Prover::new(g.clone());
    p.gen_uni_polynomial(None).unwrap();
    let g2 = p.gen_uni_polynomial(Some(6)).unwrap();
    for x in 0..ORDER {
        let low = g.clone().evaluate(&vec![6, x, 0]).unwrap();
        let high = g.clone().evaluate(&vec![6, x, 1]).unwrap();
        assert_eq!(g2.evaluate(&x), (low + high) % ORDER);
    }
}

#[test]
fn round_degree_stays_below_largest_power_of_its_variable() {
    let mut p = Prover::new(cubic());
    let g1 = p.gen_uni_polynomial(None).unwrap();
    assert_eq!(g1.degree(), 3);
    let g2 = p.gen_uni_polynomial(Some(2)).unwrap();
    assert_eq!(g2.degree(), 2);
    let g3 = p.gen_uni_polynomial(Some(9)).unwrap();
    assert_eq!(g3.degree(), 1);
}

#[test]
fn last_round_polynomial_is_the_polynomial_in_its_last_variable() {
    let g = cubic();
    for r in 0..ORDER {
        let mut p = Prover::new(g.clone());
        p.gen_uni_polynomial(None).unwrap();
        p.gen_uni_polynomial(Some(5)).unwrap();
        let g3 = p.gen_uni_polynomial(Some(13)).unwrap();
        assert_eq!(g3.evaluate(&r), g.clone().evaluate(&vec![5, 13, r]).unwrap());
    }
}

#[test]
fn round_is_refused_when_no_variable_is_free() {
    let mut p = Prover::new(sample());
    p.gen_uni_polynomial(None).unwrap();
    p.gen_uni_polynomial(Some(3)).unwrap();
    assert_eq!(p.gen_uni_polynomial(Some(8)), Err(Error::NoFreeVariable));
    assert_eq!(p.r_vec, vec![3]);
    p.r_vec.push(8);
    assert_eq!(p.gen_uni_polynomial(None), Err(Error::NoFreeVariable));
    let constant: Poly<ORDER> = Poly::new(0, vec![(1, vec![])]);
    assert_eq!(Prover::new(constant).gen_uni_polynomial(None), Err(Error::NoFreeVariable));
}

#[test]
fn round_is_refused_for_malformed_polynomial() {
    let g: Poly<ORDER> = Poly::new(2, vec![(1, vec![Term { index: 5, power: 1 }])]);
    let mut p = Prover::new(g);
    assert_eq!(p.gen_uni_polynomial(Some(1)), Err(Error::TermIndexOutOfRange));
    assert!(p.r_vec.is_empty());
}

#[test]
fn round_is_refused_for_too_large_power_of_its_variable() {
    let g: Poly<ORDER> = Poly::new(2, vec![(1, vec![Term { index: 0, power: MAX_POWER + 1 }])]);
    assert_eq!(Prover::new(g).gen_uni_polynomial(None), Err(Error::PowerTooLarge));
}

// x_0 + x_1^(2^27)
fn steep() -> Poly<ORDER> {
    let terms = vec![
        (1, vec![Term { index: 0, power: 1 }]),
        (1, vec![Term { index: 1, power: MAX_POWER + 1 }]),
    ];
    Poly::new(2, terms)
}

#[test]
fn large_power_of_a_later_variable_does_not_stop_a_round() {
    // (X + 0) + (X + 1) = 1 + 2 X
    let mut p = Prover::new(steep());
    let g1 = p.gen_uni_polynomial(None).unwrap();
    assert_eq!(g1.coefficients, vec![1, 2]);
    // the next round's own variable has the large power
    assert_eq!(p.gen_uni_polynomial(Some(3)), Err(Error::PowerTooLarge));
    assert!(p.r_vec.is_empty());
}

#[test]
fn large_power_of_a_fixed_variable_does_not_stop_a_round() {
    // x_0^(2^27) * x_1 with x_0 = 3: 3^(2^27) = 2, so 2 X
    let terms = vec![(1, vec![Term { index: 0, power: MAX_POWER + 1 }, Term { index: 1, power: 1 }])];
    let g: Poly<ORDER> = Poly::new(2, terms);
    let mut p = Prover::new(g.clone());
    p.r_vec.push(3);
    let g2 = p.gen_uni_polynomial(None).unwrap();
    assert_eq!(g2.coefficients, vec![0, 2]);
    for x in 0..ORDER {
        assert_eq!(g2.evaluate(&x), g.clone().evaluate(&vec![3, x]).unwrap());
    }
    // the first round's own variable has the large power
    assert_eq!(verify_with_challenges(g.clone(), 1, &vec![3, 4]), Err(Error::PowerTooLarge));
    assert_eq!(verify(g, 1), Err(Error::PowerTooLarge));
}

#[test]
fn false_claim_is_rejected_before_a_large_power_is_reached() {
    // the sum of x_0 + x_1^(2^27) over the hypercube is 0 + 1 + 1 + 2 = 4
    for c in 0..ORDER {
        if c != 4 {
            assert_eq!(verify(steep(), c), Ok(false));
            assert_eq!(verify_with_challenges(steep(), c, &vec![6, 9]), Ok(false));
        }
    }
}

#[test]
fn true_claim_is_refused_where_a_large_power_is_reached() {
    assert_eq!(verify(steep(), 4), Err(Error::PowerTooLarge));
    assert_eq!(verify_with_challenges(steep(), 4, &vec![6, 9]), Err(Error::PowerTooLarge));
    // three variables, the large power on the last: refused in the third round
    let terms = vec![
        (1, vec![Term { index: 0, power: 1 }]),
        (2, vec![Term { index: 1, power: 1 }]),
        (1, vec![Term { index: 2, power: MAX_POWER + 1 }]),
    ];
    let g: Poly<ORDER> = Poly::new(3, terms);
    // 4 * 1 + 4 * 2 + 4 * 1 = 16
    assert_eq!(verify(g.clone(), 16), Err(Error::PowerTooLarge));
    assert_eq!(verify(g, 15), Ok(false));
}

#[test]
fn evaluate_term_has_no_limit_on_other_variables() {
    let p = Prover::new(steep());
    let factors = vec![Term { index: 1, power: MAX_POWER + 1 }];
    // x_1 = 1 gives the constant 1, x_1 = 0 the zero polynomial
    assert_eq!(p.evaluate_term(&factors, &vec![0, 1]).coefficients, vec![1]);
    assert_eq!(p.evaluate_term(&factors, &vec![0, 0]).coefficients, Vec::<u64>::new());
    // x_1 = 3: 3^(2^27) = 2
    assert_eq!(p.evaluate_term(&factors, &vec![0, 3]).coefficients, vec![2]);
}

#[test]
fn evaluate_gj_has_no_limit_on_other_variables() {
    let p = Prover::new(steep());
    assert_eq!(p.evaluate_gj(vec![0, 1]).coefficients, vec![1, 1]);
    assert_eq!(p.evaluate_gj(vec![0, 0]).coefficients, vec![0, 1]);
    assert_eq!(p.evaluate_gj(vec![0, 3]).coefficients, vec![2, 1]);
}

#[test]
fn largest_power_of_one_variable() {
    assert_eq!(steep().max_power_of(0), 1);
    assert_eq!(steep().max_power_of(1), MAX_POWER + 1);
    assert_eq!(steep().max_power_of(2), 0);
    assert_eq!(cubic().max_power_of(0), 3);
    assert_eq!(cubic().max_power_of(1), 2);
    assert_eq!(cubic().max_power_of(2), 1);
    assert_eq!(steep().max_degree(), MAX_POWER + 1);
}

#[test]
fn round_is_refused_for_too_many_free_variables() {
    let g: Poly<ORDER> = Poly::new(34, vec![(1, vec![])]);
    let mut p = Prover::new(g);
    assert_eq!(p.gen_uni_polynomial(None), Err(Error::TooManyVariables));
    assert_eq!(p.gen_uni_polynomial(Some(1)), Err(Error::TooManyVariables));
    assert!(p.r_vec.is_empty());
}

#[test]
fn new_prover_holds_no_challenge() {
    let p = Prover::new(sample());
    assert!(p.r_vec.is_empty());
    assert_eq!(p.g.num_vars(), 2);
    assert_eq!(p.g.terms.len(), 3);
}

#[test]
fn evaluate_term_fixes_the_other_variables() {
    // 2 * x_0^3 * x_1 with x_0 = 3 and x_1 free: 27 X = 4 X
    let mut p = Prover::new(cubic());
    p.r_vec.push(3);
    let factors = vec![Term { index: 0, power: 3 }, Term { index: 1, power: 1 }];
    let u = p.evaluate_term(&factors, &vec![0, 1]);
    assert_eq!(u.coefficients, vec![0, 4]);
    // x_1^2 * x_2 with x_1 free and x_2 = 1, then x_2 = 0
    let factors = vec![Term { index: 1, power: 2 }, Term { index: 2, power: 1 }];
    assert_eq!(p.evaluate_term(&factors, &vec![0, 1]).coefficients, vec![0, 0, 1]);
    assert_eq!(p.evaluate_term(&factors, &vec![0, 0]).coefficients, Vec::<u64>::new());
    // no factor at all: the constant 1
    assert_eq!(p.evaluate_term(&vec![], &vec![0, 0]).coefficients, vec![1]);
}

#[test]
fn evaluate_term_matches_monomial_of_field_library() {
    type FE = FieldElement<U64PrimeField<ORDER>>;
    let mut p = Prover::new(cubic());
    p.r_vec.push(3);
    let factors = vec![Term { index: 0, power: 3 }, Term { index: 1, power: 1 }];
    let u = p.evaluate_term(&factors, &vec![0, 1]);
    let expected = Polynomial::new_monomial(FE::from(3).pow(3u64), 1);
    let held: Vec<u64> = expected.coefficients.iter().map(|c| c.representative()).collect();
    assert_eq!(u.coefficients, held);
}

#[test]
fn evaluate_gj_sums_the_terms() {
    // x_0 = 3, x_2 = 1: 2 * 27 * X + X^2 + 5 + 7 = 12 + 8 X + X^2
    let mut p = Prover::new(cubic());
    p.r_vec.push(3);
    assert_eq!(p.evaluate_gj(vec![0, 1]).coefficients, vec![12, 8, 1]);
    // x_2 = 0: 7 + 8 X
    assert_eq!(p.evaluate_gj(vec![0, 0]).coefficients, vec![7, 8]);
    // the place of the free variable is not read
    assert_eq!(p.evaluate_gj(vec![9, 0]).coefficients, vec![7, 8]);
}

#[test]
fn evaluate_gj_reduces_coefficients() {
    // 30 * x_0 is 7 * x_0
    let g: Poly<ORDER> = Poly::new(1, vec![(30, vec![Term { index: 0, power: 1 }])]);
    let p = Prover::new(g);
    assert_eq!(p.evaluate_gj(vec![0]).coefficients, vec![0, 7]);
}

#[test]
fn n_to_vec_is_big_endian() {
    assert_eq!(n_to_vec::<ORDER>(5, 3), vec![1, 0, 1]);
    assert_eq!(n_to_vec::<ORDER>(1, 3), vec![0, 0, 1]);
    assert_eq!(n_to_vec::<ORDER>(4, 3), vec![1, 0, 0]);
    assert_eq!(n_to_vec::<ORDER>(3, 2), vec![1, 1]);
    assert_eq!(n_to_vec::<ORDER>(6, 4), vec![0, 1, 1, 0]);
}

#[test]
fn n_to_vec_pads_with_zeros() {
    assert_eq!(n_to_vec::<ORDER>(0, 2), vec![0, 0]);
    assert_eq!(n_to_vec::<ORDER>(1, 5), vec![0, 0, 0, 0, 1]);
    assert_eq!(n_to_vec::<ORDER>(0, 0), Vec::<u64>::new());
    assert_eq!(n_to_vec::<ORDER>(usize::MAX, 70)[..6], [0, 0, 0, 0, 0, 0]);
    assert_eq!(n_to_vec::<ORDER>(usize::MAX, 70).len(), 70);
}

#[test]
fn challenges_lie_in_the_field() {
    for _ in 0..200 {
        let r = get_r::<ORDER>();
        assert!(matches!(r, Some(x) if x < ORDER));
    }
    for _ in 0..200 {
        assert_eq!(get_r::<2>().map(|x| x < 2), Some(true));
    }
}

#[test]
fn challenge_is_the_residue_of_the_draw() {
    assert_eq!(challenge_from::<ORDER>(0), 0);
    assert_eq!(challenge_from::<ORDER>(22), 22);
    assert_eq!(challenge_from::<ORDER>(23), 0);
    assert_eq!(challenge_from::<ORDER>(100), 8);
    // 2^64 - 1 = 23 * 802032351030850070 + 5
    assert_eq!(challenge_from::<ORDER>(u64::MAX), 5);
    assert_eq!(challenge_from::<2>(7), 1);
}

#[test]
fn challenges_vary() {
    const BIG: u64 = 18446744073709551557;
    let first = get_r::<BIG>();
    let mut differs = false;
    for _ in 0..20 {
        differs = differs || get_r::<BIG>() != first;
    }
    assert!(differs);
}

#[test]
fn univariate_evaluation_matches_field_library() {
    type FE = FieldElement<U64PrimeField<ORDER>>;
    let u: UniPoly<ORDER> = UniPoly { coefficients: vec![3, 0, 22, 7] };
    let held: Vec<FE> = u.coefficients.iter().map(|c| FE::from(*c)).collect();
    let reference = Polynomial::new(&held);
    for x in 0..ORDER {
        assert_eq!(u.evaluate(&x), reference.evaluate(&FE::from(x)).representative());
    }
    // 3 + 22 * 4 + 7 * 8 = 147 = 9 mod 23
    assert_eq!(u.evaluate(&2), 9);
    assert_eq!(u.degree(), 3);
}

#[test]
fn sum_check_over_large_field() {
    const BIG: u64 = 18446744073709551557;
    let terms = vec![
        (BIG - 1, vec![Term { index: 0, power: 2 }, Term { index: 1, power: 1 }]),
        (3, vec![Term { index: 1, power: 5 }]),
    ];
    let g: Poly<BIG> = Poly::new(2, terms);
    // (1, 1) gives -1 + 3, (0, 1) gives 3, the others 0
    assert_eq!(true_sum(&g), 5);
    for _ in 0..20 {
        assert_eq!(verify(g.clone(), 5), Ok(true));
        assert_eq!(verify(g.clone(), 4), Ok(false));
    }
}
