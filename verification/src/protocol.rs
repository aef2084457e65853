//! What the verifier checks, as a mathematical statement, and what follows
//! from it for an honest prover.

use crate::errors::Error;
use crate::field::lemma_add_mod;
use crate::hypercube::{cube_sum, hypercube_sum, MAX_FREE_VARS};
use crate::polynomial::{terms_in_range, terms_value, PolyView};
use crate::round::{in_normal_form, lemma_round_eval_is_cube_sum, round_eval, var_max_power};
use crate::univariate::MAX_POWER;
use vstd::prelude::*;

verus! {

/// The value that a round polynomial stands for: the sum of its values at 0
/// and at 1, in the field of order `p`.
pub open spec fn round_claim(g: PolyView, prefix: Seq<u64>, p: int) -> int {
    (round_eval(g, prefix, 0, p) + round_eval(g, prefix, 1, p)) % p
}

/// The check on the round polynomial number `k`, counted from 0, under the
/// challenges `rs`: it stands for the claimed sum in the first round, and
/// for the value of the round polynomial before it at the challenge
/// between the two in every later round.
pub open spec fn round_passes(g: PolyView, claimed: u64, rs: Seq<u64>, k: int, p: int) -> bool {
    round_claim(g, rs.take(k), p) == if k == 0 {
        claimed as int % p
    } else {
        round_eval(g, rs.take(k - 1), rs[k - 1], p)
    }
}

/// The last check: the last round polynomial takes at the last challenge
/// the value of `g` at all the challenges.
pub open spec fn final_passes(g: PolyView, rs: Seq<u64>, p: int) -> bool {
    round_eval(g, rs.take(g.num_vars - 1), rs[g.num_vars - 1], p) == terms_value(g.terms, rs) % p
}

/// The verifier accepts the claim that `g` sums to `claimed` over the
/// hypercube when the challenges are `rs`: every round's check and the last
/// check pass. For a polynomial without variables the claim is compared
/// with its one value.
pub open spec fn accepts(g: PolyView, claimed: u64, rs: Seq<u64>, p: int) -> bool {
    if g.num_vars == 0 {
        claimed as int % p == terms_value(g.terms, rs) % p
    } else {
        &&& forall|k: int| 0 <= k < g.num_vars ==> #[trigger] round_passes(g, claimed, rs, k, p)
        &&& final_passes(g, rs, p)
    }
}

/// Why the protocol is refused on `g` with `challenges` challenges before
/// any check is made, if it is: the challenges are not one for each
/// variable, a factor names a variable that `g` does not have, or the
/// first round cannot be derived.
pub open spec fn verify_refusal(g: PolyView, challenges: nat) -> Option<Error> {
    if challenges != g.num_vars {
        Some(Error::AssignmentLength)
    } else if !terms_in_range(g.terms, g.num_vars as int) {
        Some(Error::TermIndexOutOfRange)
    } else if g.num_vars == 0 {
        None
    } else if var_max_power(g.terms, 0) > MAX_POWER {
        Some(Error::PowerTooLarge)
    } else if g.num_vars > MAX_FREE_VARS {
        Some(Error::TooManyVariables)
    } else {
        None
    }
}

/// How the run ends from the check on the round polynomial number `k` on,
/// that polynomial being derived: with a reject at the first check that
/// fails, with a refusal where the next round is reached and its variable
/// has too large a power, and else with the verdict of the last check.
pub open spec fn rounds_outcome(g: PolyView, claimed: u64, rs: Seq<u64>, k: nat, p: int) -> Result<
    bool,
    Error,
>
    decreases g.num_vars - k,
{
    if !round_passes(g, claimed, rs, k as int, p) {
        Ok(false)
    } else if k + 1 >= g.num_vars {
        Ok(final_passes(g, rs, p))
    } else if var_max_power(g.terms, (k + 1) as int) > MAX_POWER {
        Err(Error::PowerTooLarge)
    } else {
        rounds_outcome(g, claimed, rs, k + 1, p)
    }
}

/// How a run of the protocol on `g` with the challenges `rs` ends: refused,
/// or with the verifier's verdict. A round is derived only when it is
/// reached, so a power that is too large for a later round does not stand
/// in the way of an earlier reject.
pub open spec fn protocol_outcome(g: PolyView, claimed: u64, rs: Seq<u64>, p: int) -> Result<
    bool,
    Error,
> {
    match verify_refusal(g, rs.len()) {
        Some(e) => Err(e),
        None => if g.num_vars == 0 {
            Ok(accepts(g, claimed, rs, p))
        } else {
            rounds_outcome(g, claimed, rs, 0, p)
        },
    }
}

/// Every round after the first has a variable whose powers are within
/// `MAX_POWER`.
pub open spec fn later_rounds_within_limit(g: PolyView) -> bool {
    forall|k: int| 1 <= k < g.num_vars ==> #[trigger] var_max_power(g.terms, k) <= MAX_POWER
}

/// How a run on a polynomial in normal form ends, whatever the challenges
/// are: a false claim is rejected in the first round, and a true claim is
/// accepted, unless a later round cannot be derived.
pub open spec fn honest_outcome(g: PolyView, claimed: u64, p: int) -> Result<bool, Error> {
    match verify_refusal(g, g.num_vars) {
        Some(e) => Err(e),
        None => if claimed as int % p != hypercube_sum(g) % p {
            Ok(false)
        } else if later_rounds_within_limit(g) {
            Ok(true)
        } else {
            Err(Error::PowerTooLarge)
        },
    }
}

/// Rounds whose checks pass and whose successors can be derived do not
/// end the run: the outcome is that from the last of them on.
pub proof fn lemma_rounds_outcome_skips(
    g: PolyView,
    claimed: u64,
    rs: Seq<u64>,
    j: nat,
    k: nat,
    p: int,
)
    requires
        j <= k < g.num_vars,
        forall|i: int| j <= i < k ==> #[trigger] round_passes(g, claimed, rs, i, p),
        forall|i: int| j < i <= k ==> #[trigger] var_max_power(g.terms, i) <= MAX_POWER,
    ensures
        rounds_outcome(g, claimed, rs, j, p) == rounds_outcome(g, claimed, rs, k, p),
    decreases k - j,
{
    if j < k {
        assert(round_passes(g, claimed, rs, j as int, p));
        assert(var_max_power(g.terms, (j + 1) as int) <= MAX_POWER);
        lemma_rounds_outcome_skips(g, claimed, rs, j + 1, k, p);
    }
}

/// Where the run ends with a verdict, the verdict is `accepts`.
pub proof fn lemma_outcome_is_verdict(g: PolyView, claimed: u64, rs: Seq<u64>, p: int)
    ensures
        protocol_outcome(g, claimed, rs, p) matches Ok(b) ==> b == accepts(g, claimed, rs, p),
{
    if verify_refusal(g, rs.len()) is None && g.num_vars > 0 {
        lemma_rounds_verdict(g, claimed, rs, 0, p);
    }
}

proof fn lemma_rounds_verdict(g: PolyView, claimed: u64, rs: Seq<u64>, k: nat, p: int)
    requires
        k < g.num_vars,
        forall|i: int| 0 <= i < k ==> #[trigger] round_passes(g, claimed, rs, i, p),
    ensures
        rounds_outcome(g, claimed, rs, k, p) matches Ok(b) ==> b == accepts(g, claimed, rs, p),
    decreases g.num_vars - k,
{
    if round_passes(g, claimed, rs, k as int, p) && k + 1 < g.num_vars && var_max_power(
        g.terms,
        (k + 1) as int,
    ) <= MAX_POWER {
        lemma_rounds_verdict(g, claimed, rs, k + 1, p);
    }
}

/// A round polynomial stands for the sum of the polynomial over the
/// Boolean values of all variables that are free before the round.
pub proof fn lemma_round_claim_is_cube_sum(g: PolyView, prefix: Seq<u64>, p: int)
    requires
        p > 0,
        in_normal_form(g.terms),
        terms_in_range(g.terms, g.num_vars as int),
        prefix.len() < g.num_vars,
    ensures
        round_claim(g, prefix, p) == cube_sum(g.terms, prefix, (g.num_vars - prefix.len()) as nat)
            % p,
{
    let rest = (g.num_vars - prefix.len() - 1) as nat;
    lemma_round_eval_is_cube_sum(g, prefix, 0, p);
    lemma_round_eval_is_cube_sum(g, prefix, 1, p);
    lemma_add_mod(cube_sum(g.terms, prefix.push(0), rest), cube_sum(g.terms, prefix.push(1), rest), p);
}

/// Round consistency: for a polynomial in normal form, every check after
/// the first passes, whatever the challenges are.
pub proof fn lemma_later_rounds_pass(g: PolyView, claimed: u64, rs: Seq<u64>, k: int, p: int)
    requires
        p > 0,
        in_normal_form(g.terms),
        terms_in_range(g.terms, g.num_vars as int),
        rs.len() == g.num_vars,
        1 <= k < g.num_vars,
    ensures
        round_passes(g, claimed, rs, k, p),
{
    lemma_round_claim_is_cube_sum(g, rs.take(k), p);
    lemma_round_eval_is_cube_sum(g, rs.take(k - 1), rs[k - 1], p);
    assert(rs.take(k - 1).push(rs[k - 1]) =~= rs.take(k));
}

/// The first check passes exactly when the claimed sum is the sum of the
/// polynomial over the hypercube, in the field.
pub proof fn lemma_first_round_decides(g: PolyView, claimed: u64, rs: Seq<u64>, p: int)
    requires
        p > 0,
        in_normal_form(g.terms),
        terms_in_range(g.terms, g.num_vars as int),
        g.num_vars >= 1,
    ensures
        round_passes(g, claimed, rs, 0, p) <==> claimed as int % p == hypercube_sum(g) % p,
{
    assert(rs.take(0) =~= Seq::<u64>::empty());
    lemma_round_claim_is_cube_sum(g, Seq::<u64>::empty(), p);
}

/// Final-round consistency: for a polynomial in normal form, the last
/// round polynomial takes at the last challenge the value of the
/// polynomial at the whole vector of challenges.
pub proof fn lemma_final_round_consistent(g: PolyView, rs: Seq<u64>, p: int)
    requires
        p > 0,
        in_normal_form(g.terms),
        terms_in_range(g.terms, g.num_vars as int),
        rs.len() == g.num_vars,
        g.num_vars >= 1,
    ensures
        final_passes(g, rs, p),
{
    let last = g.num_vars - 1;
    lemma_round_eval_is_cube_sum(g, rs.take(last), rs[last], p);
    assert(rs.take(last).push(rs[last]) =~= rs);
}

/// With an honest prover the verifier's verdict does not depend on the
/// challenges: for a polynomial in normal form it accepts exactly the
/// claims that are true in the field.
pub proof fn lemma_verdict_is_truth(g: PolyView, claimed: u64, rs: Seq<u64>, p: int)
    requires
        p > 0,
        in_normal_form(g.terms),
        terms_in_range(g.terms, g.num_vars as int),
        rs.len() == g.num_vars,
    ensures
        accepts(g, claimed, rs, p) <==> claimed as int % p == hypercube_sum(g) % p,
{
    if g.num_vars == 0 {
        assert(rs =~= Seq::<u64>::empty());
    } else {
        lemma_first_round_decides(g, claimed, rs, p);
        lemma_final_round_consistent(g, rs, p);
        assert forall|k: int| 1 <= k < g.num_vars implies #[trigger] round_passes(
            g,
            claimed,
            rs,
            k,
            p,
        ) by {
            lemma_later_rounds_pass(g, claimed, rs, k, p);
        }
    }
}

/// Completeness: a claim that is the sum of the polynomial over the
/// hypercube is accepted under every sequence of challenges, and the run
/// ends with that verdict wherever every round can be derived.
pub proof fn lemma_completeness(g: PolyView, claimed: u64, rs: Seq<u64>, p: int)
    requires
        p > 0,
        in_normal_form(g.terms),
        terms_in_range(g.terms, g.num_vars as int),
        rs.len() == g.num_vars,
        claimed as int % p == hypercube_sum(g) % p,
    ensures
        accepts(g, claimed, rs, p),
        verify_refusal(g, g.num_vars) is None && later_rounds_within_limit(g) ==> protocol_outcome(
            g,
            claimed,
            rs,
            p,
        ) == Ok::<bool, Error>(true),
{
    lemma_verdict_is_truth(g, claimed, rs, p);
    lemma_outcome_is_honest(g, claimed, rs, p);
}

/// A claim that is not the sum of the polynomial over the hypercube is
/// rejected under every sequence of challenges: the prover derives its
/// round polynomials from the polynomial itself, so the first check fails,
/// and the run ends there wherever the first round can be derived.
pub proof fn lemma_false_claim_rejected(g: PolyView, claimed: u64, rs: Seq<u64>, p: int)
    requires
        p > 0,
        in_normal_form(g.terms),
        terms_in_range(g.terms, g.num_vars as int),
        rs.len() == g.num_vars,
        claimed as int % p != hypercube_sum(g) % p,
    ensures
        !accepts(g, claimed, rs, p),
        verify_refusal(g, g.num_vars) is None ==> protocol_outcome(g, claimed, rs, p) == Ok::<
            bool,
            Error,
        >(false),
{
    lemma_verdict_is_truth(g, claimed, rs, p);
    lemma_outcome_is_honest(g, claimed, rs, p);
}

/// With an honest prover the run on a polynomial in normal form ends the
/// same way under every sequence of challenges: as `honest_outcome` says.
pub proof fn lemma_outcome_is_honest(g: PolyView, claimed: u64, rs: Seq<u64>, p: int)
    requires
        p > 0,
        in_normal_form(g.terms),
        rs.len() == g.num_vars,
    ensures
        protocol_outcome(g, claimed, rs, p) == honest_outcome(g, claimed, p),
{
    if verify_refusal(g, g.num_vars) is None {
        lemma_verdict_is_truth(g, claimed, rs, p);
        if g.num_vars > 0 {
            lemma_first_round_decides(g, claimed, rs, p);
            if round_passes(g, claimed, rs, 0, p) {
                assert forall|k: int| 0 <= k < g.num_vars implies #[trigger] round_passes(
                    g,
                    claimed,
                    rs,
                    k,
                    p,
                ) by {
                    if k > 0 {
                        lemma_later_rounds_pass(g, claimed, rs, k, p);
                    }
                }
                lemma_final_round_consistent(g, rs, p);
                lemma_passing_rounds_outcome(g, claimed, rs, 0, p);
            }
        }
    }
}

proof fn lemma_passing_rounds_outcome(g: PolyView, claimed: u64, rs: Seq<u64>, k: nat, p: int)
    requires
        k < g.num_vars,
        forall|i: int| 0 <= i < g.num_vars ==> #[trigger] round_passes(g, claimed, rs, i, p),
        final_passes(g, rs, p),
    ensures
        rounds_outcome(g, claimed, rs, k, p) == if forall|i: int|
            k < i < g.num_vars ==> #[trigger] var_max_power(g.terms, i) <= MAX_POWER {
            Ok::<bool, Error>(true)
        } else {
            Err::<bool, Error>(Error::PowerTooLarge)
        },
    decreases g.num_vars - k,
{
    assert(round_passes(g, claimed, rs, k as int, p));
    if k + 1 < g.num_vars {
        if var_max_power(g.terms, (k + 1) as int) <= MAX_POWER {
            lemma_passing_rounds_outcome(g, claimed, rs, k + 1, p);
            if forall|i: int| k + 1 < i < g.num_vars ==> #[trigger] var_max_power(g.terms, i)
                <= MAX_POWER {
                assert forall|i: int| k < i < g.num_vars implies #[trigger] var_max_power(
                    g.terms,
                    i,
                ) <= MAX_POWER by {}
            }
        }
    }
}

} // verus!
